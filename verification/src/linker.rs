//! The linker: lays the objects of a script out one after the other in one
//! address space, turns every procedure-local address into an absolute one,
//! and replaces every call by a jump to the entry point of the callee.

use crate::tables::{
    distinct_keys, has_key, key_index, objects_into_vec, objects_view, table_entries, table_get,
    table_insert, table_new, value_of,
};
use crate::parser::AstView;
use crate::translator::{
    generate_all, lemma_generate_procedure, object_view, pre_leaves_view, procedure_code,
    BranchPreLeaf, ObjectFiles, PreInstruction, PreInstructionView,
};
use crate::vm::{
    code_view, leaves_view, leaves_within, sound_code, sound_instruction, BranchLeaf,
    Instruction, InstructionView, LeafView,
};
use linked_hash_map::LinkedHashMap;
use vstd::prelude::*;

verus! {

/// A linked script: the entry point of every procedure, in the order of the
/// procedures, and the instructions of all of them.
pub struct Executable {
    pub entry_points: LinkedHashMap<String, usize>,
    pub opcodes: Vec<Instruction>,
}

/// What an [`Executable`] stands for in contracts.
pub struct ExecutableView {
    pub entry_points: Seq<(Seq<char>, nat)>,
    pub code: Seq<InstructionView>,
}

impl View for Executable {
    type V = ExecutableView;

    open spec fn view(&self) -> ExecutableView {
        ExecutableView {
            entry_points: table_entries(self.entry_points),
            code: code_view(self.opcodes@),
        }
    }
}

/// Whether the machine can hold every address of the instruction.
pub open spec fn machine_instruction(instruction: InstructionView) -> bool {
    match instruction {
        InstructionView::Jmp(target) => target <= usize::MAX,
        InstructionView::PushPtr(address) => address <= usize::MAX,
        InstructionView::Branch(leaves) => leaves_within(leaves, usize::MAX as int),
        _ => true,
    }
}

/// Whether no name comes twice in the table of entry points, and the
/// machine can hold every address of it.
pub open spec fn machine_table(table: Seq<(Seq<char>, nat)>) -> bool {
    &&& distinct_keys(table)
    &&& forall|i: int| 0 <= i < table.len() ==> (#[trigger] table[i]).1 <= usize::MAX
}

/// Whether the executable is one that the machine can hold: no name comes
/// twice in its table of entry points, and every address of the table and
/// of the code is one that the machine can hold.
pub open spec fn machine_executable(executable: ExecutableView) -> bool {
    &&& machine_table(executable.entry_points)
    &&& forall|p: int|
        0 <= p < executable.code.len() ==> machine_instruction(#[trigger] executable.code[p])
}

/// The machine can hold every address of the instructions that it holds.
pub proof fn lemma_code_is_machine_sized(opcodes: Seq<Instruction>)
    ensures
        forall|p: int|
            0 <= p < opcodes.len() ==> machine_instruction(#[trigger] code_view(opcodes)[p]),
{
    assert forall|p: int| 0 <= p < opcodes.len() implies machine_instruction(
        #[trigger] code_view(opcodes)[p],
    ) by {
        match opcodes[p] {
            Instruction::Branch(leaves) => {
                assert forall|k: int| 0 <= k < leaves@.len() implies (#[trigger] leaves_view(
                    leaves@,
                )[k]).target <= usize::MAX by {}
            },
            _ => {},
        }
    }
}

/// Why a script could not be linked.
#[derive(Debug, Clone, PartialEq, Eq)]
pub enum LinkError {
    /// A call names a procedure that the script does not have.
    UnknownProcedure(String),
}

/// The number of instructions in all the objects.
pub open spec fn total_size(objects: Seq<(Seq<char>, Seq<PreInstructionView>)>) -> nat
    decreases objects.len(),
{
    if objects.len() == 0 {
        0
    } else {
        total_size(objects.drop_last()) + objects.last().1.len()
    }
}

/// The address at which object `i` starts: the number of instructions in
/// the objects before it.
pub open spec fn base_address(objects: Seq<(Seq<char>, Seq<PreInstructionView>)>, i: int) -> nat {
    total_size(objects.take(i))
}

/// The entry points of the objects: in the order of the objects, each name
/// with the address at which its object starts.
pub open spec fn entry_table(objects: Seq<(Seq<char>, Seq<PreInstructionView>)>) -> Seq<
    (Seq<char>, nat),
> {
    Seq::new(objects.len(), |i: int| (objects[i].0, base_address(objects, i)))
}

/// The leaves with `base` added to every address.
pub open spec fn relocated_leaves(leaves: Seq<LeafView>, base: nat) -> Seq<LeafView> {
    Seq::new(
        leaves.len(),
        |i: int| LeafView { name: leaves[i].name, target: leaves[i].target + base },
    )
}

/// The name that the instruction calls, if no entry point has that name.
pub open spec fn unknown_call(instruction: PreInstructionView, table: Seq<(Seq<char>, nat)>) -> Option<
    Seq<char>,
> {
    match instruction {
        PreInstructionView::UnresolvedCall(name) => if has_key(table, name) {
            None
        } else {
            Some(name)
        },
        _ => None,
    }
}

/// The instruction of an object that starts at `base`, linked: local
/// addresses are moved by `base`, and a call becomes a jump to the entry
/// point of the callee. A call of an unknown name has no linked form; it
/// stands here as a jump to whatever address is looked up for it.
pub open spec fn resolved(
    instruction: PreInstructionView,
    base: nat,
    table: Seq<(Seq<char>, nat)>,
) -> InstructionView {
    match instruction {
        PreInstructionView::Ret => InstructionView::Ret,
        PreInstructionView::Msg(text) => InstructionView::Msg(text),
        PreInstructionView::Jmp(target) => InstructionView::Jmp(target + base),
        PreInstructionView::Wait => InstructionView::Wait,
        PreInstructionView::Branch(leaves) => InstructionView::Branch(
            relocated_leaves(leaves, base),
        ),
        PreInstructionView::PushPtr(address) => InstructionView::PushPtr(address + base),
        PreInstructionView::UnresolvedCall(name) => InstructionView::Jmp(
            value_of(table, name).unwrap(),
        ),
    }
}

/// The code of one object that starts at `base`, linked.
pub open spec fn linked_object(
    code: Seq<PreInstructionView>,
    base: nat,
    table: Seq<(Seq<char>, nat)>,
) -> Seq<InstructionView> {
    Seq::new(code.len(), |p: int| resolved(code[p], base, table))
}

/// The code of all the objects, linked and laid out in their order.
pub open spec fn linked_code(
    objects: Seq<(Seq<char>, Seq<PreInstructionView>)>,
    table: Seq<(Seq<char>, nat)>,
) -> Seq<InstructionView>
    decreases objects.len(),
{
    if objects.len() == 0 {
        Seq::empty()
    } else {
        linked_code(objects.drop_last(), table) + linked_object(
            objects.last().1,
            total_size(objects.drop_last()),
            table,
        )
    }
}

/// The first name, in the order of the instructions, that is called
/// without being an entry point.
pub open spec fn first_unknown_in(code: Seq<PreInstructionView>, table: Seq<(Seq<char>, nat)>) -> Option<
    Seq<char>,
>
    decreases code.len(),
{
    if code.len() == 0 {
        None
    } else {
        match first_unknown_in(code.drop_last(), table) {
            Some(name) => Some(name),
            None => unknown_call(code.last(), table),
        }
    }
}

/// The first name, in the order of the layout, that is called without
/// being an entry point.
pub open spec fn first_unknown(
    objects: Seq<(Seq<char>, Seq<PreInstructionView>)>,
    table: Seq<(Seq<char>, nat)>,
) -> Option<Seq<char>>
    decreases objects.len(),
{
    if objects.len() == 0 {
        None
    } else {
        match first_unknown(objects.drop_last(), table) {
            Some(name) => Some(name),
            None => first_unknown_in(objects.last().1, table),
        }
    }
}

/// Whether the addresses of the instruction, moved by `base`, can be held
/// by the machine.
pub open spec fn fits(instruction: PreInstructionView, base: nat) -> bool {
    match instruction {
        PreInstructionView::Jmp(target) => target + base <= usize::MAX,
        PreInstructionView::PushPtr(address) => address + base <= usize::MAX,
        PreInstructionView::Branch(leaves) => leaves_within(leaves, usize::MAX - base),
        _ => true,
    }
}

/// Whether the machine can hold the layout of the objects: the number of
/// all instructions and every address after it is moved.
pub open spec fn relocatable(objects: Seq<(Seq<char>, Seq<PreInstructionView>)>) -> bool {
    &&& total_size(objects) <= usize::MAX
    &&& forall|i: int, p: int|
        0 <= i < objects.len() && 0 <= p < objects[i].1.len() ==> fits(
            #[trigger] objects[i].1[p],
            base_address(objects, i),
        )
}

proof fn lemma_total_size_take(objects: Seq<(Seq<char>, Seq<PreInstructionView>)>, i: int)
    requires
        0 <= i < objects.len(),
    ensures
        total_size(objects.take(i + 1)) == total_size(objects.take(i)) + objects[i].1.len(),
        total_size(objects.take(i + 1)) <= total_size(objects),
    decreases objects.len(),
{
    assert(objects.take(i + 1).drop_last() == objects.take(i));
    if i + 1 == objects.len() {
    } else {
        lemma_total_size_take(objects.drop_last(), i);
        assert(objects.drop_last().take(i + 1) == objects.take(i + 1));
    }
}

proof fn lemma_unknown_in_prefix(
    code: Seq<PreInstructionView>,
    table: Seq<(Seq<char>, nat)>,
    n: int,
)
    requires
        0 <= n <= code.len(),
        first_unknown_in(code.take(n), table) is Some,
    ensures
        first_unknown_in(code, table) == first_unknown_in(code.take(n), table),
    decreases code.len(),
{
    if n == code.len() {
        assert(code.take(n) == code);
    } else {
        assert(code.drop_last().take(n) == code.take(n));
        lemma_unknown_in_prefix(code.drop_last(), table, n);
    }
}

proof fn lemma_unknown_prefix(
    objects: Seq<(Seq<char>, Seq<PreInstructionView>)>,
    table: Seq<(Seq<char>, nat)>,
    n: int,
)
    requires
        0 <= n <= objects.len(),
        first_unknown(objects.take(n), table) is Some,
    ensures
        first_unknown(objects, table) == first_unknown(objects.take(n), table),
    decreases objects.len(),
{
    if n == objects.len() {
        assert(objects.take(n) == objects);
    } else {
        assert(objects.drop_last().take(n) == objects.take(n));
        lemma_unknown_prefix(objects.drop_last(), table, n);
    }
}

/// Moves the addresses of the leaves of a branch by `base`.
fn relocate_leaves(leaves: Vec<BranchPreLeaf>, base: usize) -> (moved: Vec<BranchLeaf>)
    requires
        leaves_within(pre_leaves_view(leaves@), usize::MAX - base),
    ensures
        leaves_view(moved@) == relocated_leaves(pre_leaves_view(leaves@), base as nat),
{
    let mut moved: Vec<BranchLeaf> = Vec::new();
    let ghost all = relocated_leaves(pre_leaves_view(leaves@), base as nat);
    for leaf in it: leaves.into_iter()
        invariant
            it.seq() == leaves@,
            all == relocated_leaves(pre_leaves_view(leaves@), base as nat),
            leaves_view(moved@) == all.take(it.index()),
            leaves_within(pre_leaves_view(leaves@), usize::MAX - base),
    {
        let ghost index = it.index();
        let BranchPreLeaf { option_name, jmp_address } = leaf;
        assert(pre_leaves_view(leaves@)[index] == leaf@);
        let ghost before = moved@;
        moved.push(BranchLeaf { option_name, jmp_address: jmp_address + base });
        proof {
            assert(leaves_view(moved@) =~= leaves_view(before).push(all[index]));
        }
    }
    moved
}

/// What linking the objects gives: the executable that holds the entry
/// points of the objects and their linked code; or, if a call names a
/// procedure that is not among the objects, the failure that reports the
/// first such name in layout order.
pub open spec fn links_to(
    objects: Seq<(Seq<char>, Seq<PreInstructionView>)>,
    linked: Result<Executable, LinkError>,
) -> bool {
    match first_unknown(objects, entry_table(objects)) {
        Some(name) => linked matches Err(LinkError::UnknownProcedure(reported)) && reported@
            == name,
        None => linked matches Ok(executable) && executable@ == (ExecutableView {
            entry_points: entry_table(objects),
            code: linked_code(objects, entry_table(objects)),
        }),
    }
}

/// Whether the machine can hold the addresses of the instruction once they
/// are moved by `base`.
fn fits_at(instruction: &PreInstruction, base: usize) -> (ok: bool)
    ensures
        ok == fits(instruction@, base as nat),
{
    match instruction {
        PreInstruction::Jmp(target) => *target <= usize::MAX - base,
        PreInstruction::PushPtr(address) => *address <= usize::MAX - base,
        PreInstruction::Branch(leaves) => {
            let ghost all = pre_leaves_view(leaves@);
            let mut k: usize = 0;
            while k < leaves.len()
                invariant
                    k <= leaves@.len(),
                    all == pre_leaves_view(leaves@),
                    instruction@ == PreInstructionView::Branch(all),
                    forall|j: int| 0 <= j < k ==> (#[trigger] all[j]).target <= usize::MAX - base,
                decreases leaves@.len() - k,
            {
                assert(all[k as int] == leaves@[k as int]@);
                if leaves[k].jmp_address > usize::MAX - base {
                    return false;
                }
                k += 1;
            }
            true
        },
        _ => true,
    }
}

/// Whether the machine can hold the layout of the objects.
fn can_relocate(entries: &Vec<(String, Vec<PreInstruction>)>) -> (ok: bool)
    ensures
        ok == relocatable(objects_view(entries@)),
{
    let ghost objects = objects_view(entries@);
    let mut base: usize = 0;
    let mut i: usize = 0;
    while i < entries.len()
        invariant
            i <= entries@.len(),
            objects == objects_view(entries@),
            base == total_size(objects.take(i as int)),
            forall|j: int, p: int|
                0 <= j < i && 0 <= p < objects[j].1.len() ==> fits(
                    #[trigger] objects[j].1[p],
                    base_address(objects, j),
                ),
        decreases entries@.len() - i,
    {
        let code = &entries[i].1;
        proof {
            lemma_total_size_take(objects, i as int);
        }
        let mut p: usize = 0;
        while p < code.len()
            invariant
                p <= code@.len(),
                i < entries@.len(),
                objects == objects_view(entries@),
                objects[i as int].1 == object_view(code@),
                base == base_address(objects, i as int),
                forall|q: int|
                    0 <= q < p ==> fits(#[trigger] objects[i as int].1[q], base as nat),
            decreases code@.len() - p,
        {
            assert(objects[i as int].1[p as int] == code@[p as int]@);
            if !fits_at(&code[p], base) {
                return false;
            }
            p += 1;
        }
        match base.checked_add(code.len()) {
            Some(next) => {
                base = next;
            },
            None => {
                return false;
            },
        }
        i += 1;
    }
    assert(objects.take(objects.len() as int) == objects);
    true
}

/// Links the objects of a script into one executable.
///
/// The objects are laid out in their order, so the first starts at address
/// zero and every other one where the one before it ends, and the entry
/// points are listed in the same order. Fails with `UnknownProcedure`, and
/// hands out no executable, if a call names a procedure that is not among
/// the objects; the name reported is the first such in layout order.
///
/// The machine has to be able to hold the layout; [`try_link`] tests that.
pub fn link(files: ObjectFiles) -> (linked: Result<Executable, LinkError>)
    requires
        relocatable(files@),
    ensures
        links_to(files@, linked),
        linked matches Ok(executable) ==> machine_executable(executable@),
{
    link_entries(objects_into_vec(files.objects))
}

/// Links the objects of a script into one executable, if the machine can
/// hold their layout, as [`link`] does; hands out nothing if it cannot.
pub fn try_link(files: ObjectFiles) -> (linked: Option<Result<Executable, LinkError>>)
    ensures
        match linked {
            Some(outcome) => relocatable(files@) && links_to(files@, outcome),
            None => !relocatable(files@),
        },
        linked matches Some(Ok(executable)) ==> machine_executable(executable@),
{
    let entries = objects_into_vec(files.objects);
    if can_relocate(&entries) {
        Some(link_entries(entries))
    } else {
        None
    }
}

/// Links the objects that a table of objects has handed out.
fn link_entries(entries: Vec<(String, Vec<PreInstruction>)>) -> (linked: Result<
    Executable,
    LinkError,
>)
    requires
        distinct_keys(objects_view(entries@)),
        relocatable(objects_view(entries@)),
    ensures
        links_to(objects_view(entries@), linked),
        linked matches Ok(executable) ==> machine_executable(executable@),
{
    let ghost objects = objects_view(entries@);
    let ghost table = entry_table(objects);
    proof {
        assert forall|j: int| 0 <= j < table.len() implies (#[trigger] table[j]).1
            <= usize::MAX by {
            lemma_base_ascends(objects, j, j);
        }
        assert forall|i: int, j: int|
            0 <= i < table.len() && 0 <= j < table.len() && i != j implies (#[trigger] table[
            i
        ]).0 != (#[trigger] table[j]).0 by {
            assert(objects[i].0 != objects[j].0);
        }
        assert(machine_table(table));
    }

    let mut entry_points = table_new();
    let mut ptr: usize = 0;
    let mut i: usize = 0;
    while i < entries.len()
        invariant
            i <= entries@.len(),
            objects == objects_view(entries@),
            table == entry_table(objects),
            distinct_keys(objects),
            total_size(objects) <= usize::MAX,
            table_entries(entry_points) == table.take(i as int),
            ptr == total_size(objects.take(i as int)),
        decreases entries@.len() - i,
    {
        let ghost done = table.take(i as int);
        let name = entries[i].0.clone();
        proof {
            lemma_total_size_take(objects, i as int);
            if has_key(done, name@) {
                let k = choose|k: int| 0 <= k < done.len() && (#[trigger] done[k]).0 == name@;
            }
        }
        table_insert(&mut entry_points, name, ptr);
        ptr += entries[i].1.len();
        i += 1;
    }

    let mut opcodes: Vec<Instruction> = Vec::with_capacity(ptr);
    let mut base: usize = 0;
    for entry in it: entries.into_iter()
        invariant
            it.seq() == entries@,
            table == entry_table(objects),
            objects == objects_view(entries@),
            relocatable(objects),
            table == table_entries(entry_points),
            base == total_size(objects.take(it.index())),
            first_unknown(objects.take(it.index()), table) is None,
            code_view(opcodes@) == linked_code(objects.take(it.index()), table),
    {
        let ghost index = it.index();
        let ghost laid = linked_code(objects.take(index), table);
        let (name, pre_opcodes) = entry;
        let ghost code = object_view(pre_opcodes@);
        let size = pre_opcodes.len();
        proof {
            lemma_total_size_take(objects, index);
            assert(objects.take(index + 1).drop_last() == objects.take(index));
        }
        for pre_opcode in inner: pre_opcodes.into_iter()
            invariant
                inner.seq() == pre_opcodes@,
                objects == objects_view(entries@),
                table == entry_table(objects),
                code == object_view(pre_opcodes@),
                0 <= index < objects.len(),
                objects[index].1 == code,
                relocatable(objects),
                base_address(objects, index) == base,
                table == table_entries(entry_points),
                first_unknown(objects.take(index), table) is None,
                first_unknown_in(code.take(inner.index()), table) is None,
                code_view(opcodes@) == laid + linked_object(
                    code.take(inner.index()),
                    base as nat,
                    table,
                ),
        {
            let ghost p = inner.index();
            let ghost seen = code.take(p);
            proof {
                assert(code.take(p + 1).drop_last() == seen);
            }
            let opcode = match pre_opcode {
                PreInstruction::Ret => Instruction::Ret,
                PreInstruction::Msg(text) => Instruction::Msg(text),
                PreInstruction::Wait => Instruction::Wait,
                PreInstruction::Branch(leaves) => Instruction::Branch(
                    relocate_leaves(leaves, base),
                ),
                PreInstruction::PushPtr(address) => Instruction::PushPtr(address + base),
                PreInstruction::Jmp(target) => Instruction::Jmp(target + base),
                PreInstruction::UnresolvedCall(callee) => {
                    match table_get(&entry_points, callee.as_str()) {
                        Some(address) => Instruction::Jmp(address),
                        None => {
                            proof {
                                lemma_unknown_in_prefix(code, table, p + 1);
                                assert(objects.take(index + 1).drop_last() == objects.take(
                                    index,
                                ));
                                lemma_unknown_prefix(objects, table, index + 1);
                            }
                            return Err(LinkError::UnknownProcedure(callee));
                        },
                    }
                },
            };
            let ghost emitted = opcodes@;
            opcodes.push(opcode);
            proof {
                let next = resolved(code[p], base as nat, table);
                assert(code_view(opcodes@) =~= code_view(emitted).push(next));
            }
        }
        assert(code.take(code.len() as int) == code);
        base += size;
    }
    assert(objects.take(objects.len() as int) == objects);
    proof {
        lemma_code_is_machine_sized(opcodes@);
    }
    Ok(Executable { entry_points, opcodes })
}

impl Executable {
    /// The entry point of the procedure of that name, if the executable
    /// has one.
    pub fn entry_address(&self, name: &str) -> (address: Option<usize>)
        ensures
            match address {
                Some(found) => value_of(self@.entry_points, name@) == Some(found as nat),
                None => value_of(self@.entry_points, name@) is None,
            },
    {
        table_get(&self.entry_points, name)
    }
}

/// The layout follows the order of the objects: the table of entry points
/// lists the names of the objects in their order; the first object starts
/// at address zero, and every other one where the one before it ends.
pub proof fn lemma_layout_in_order(objects: Seq<(Seq<char>, Seq<PreInstructionView>)>)
    ensures
        entry_table(objects).len() == objects.len(),
        forall|i: int|
            0 <= i < objects.len() ==> (#[trigger] entry_table(objects)[i]).0 == objects[i].0,
        objects.len() > 0 ==> entry_table(objects)[0].1 == 0,
        forall|i: int|
            0 <= i < objects.len() - 1 ==> (#[trigger] entry_table(objects)[i + 1]).1
                == entry_table(objects)[i].1 + objects[i].1.len(),
{
    assert forall|i: int| 0 <= i < objects.len() - 1 implies (#[trigger] entry_table(objects)[i
        + 1]).1 == entry_table(objects)[i].1 + objects[i].1.len() by {
        lemma_total_size_take(objects, i);
    }
}

/// Whether some instruction of some object calls a name that is no entry
/// point.
pub open spec fn has_unknown_call(
    objects: Seq<(Seq<char>, Seq<PreInstructionView>)>,
    table: Seq<(Seq<char>, nat)>,
) -> bool {
    exists|i: int, p: int|
        0 <= i < objects.len() && 0 <= p < objects[i].1.len() && unknown_call(
            #[trigger] objects[i].1[p],
            table,
        ) is Some
}

proof fn lemma_unknown_in_exists(code: Seq<PreInstructionView>, table: Seq<(Seq<char>, nat)>)
    ensures
        first_unknown_in(code, table) is Some <==> exists|p: int|
            0 <= p < code.len() && unknown_call(#[trigger] code[p], table) is Some,
    decreases code.len(),
{
    if code.len() > 0 {
        let head = code.drop_last();
        lemma_unknown_in_exists(head, table);
        if first_unknown_in(code, table) is Some {
            if first_unknown_in(head, table) is Some {
                let p = choose|p: int|
                    0 <= p < head.len() && unknown_call(#[trigger] head[p], table) is Some;
            } else {
            }
        }
        if exists|p: int| 0 <= p < code.len() && unknown_call(#[trigger] code[p], table) is Some {
            let p = choose|p: int|
                0 <= p < code.len() && unknown_call(#[trigger] code[p], table) is Some;
            if p < head.len() {
                assert(unknown_call(head[p], table) is Some);
            }
        }
    }
}

/// Linking resolves every call or fails: a call that names a procedure
/// which is not among the objects makes the link fail, and without such a
/// call the link succeeds.
pub proof fn lemma_unknown_call_fails(
    objects: Seq<(Seq<char>, Seq<PreInstructionView>)>,
    table: Seq<(Seq<char>, nat)>,
)
    ensures
        first_unknown(objects, table) is Some <==> has_unknown_call(objects, table),
    decreases objects.len(),
{
    if objects.len() > 0 {
        let head = objects.drop_last();
        let last = objects.len() - 1;
        lemma_unknown_call_fails(head, table);
        lemma_unknown_in_exists(objects[last].1, table);
        if first_unknown(objects, table) is Some {
            if first_unknown(head, table) is Some {
                let (i, p) = choose|i: int, p: int|
                    0 <= i < head.len() && 0 <= p < head[i].1.len() && unknown_call(
                        #[trigger] head[i].1[p],
                        table,
                    ) is Some;
            } else {
                let p = choose|p: int|
                    0 <= p < objects[last].1.len() && unknown_call(
                        #[trigger] objects[last].1[p],
                        table,
                    ) is Some;
            }
        }
        if has_unknown_call(objects, table) {
            let (i, p) = choose|i: int, p: int|
                0 <= i < objects.len() && 0 <= p < objects[i].1.len() && unknown_call(
                    #[trigger] objects[i].1[p],
                    table,
                ) is Some;
            if i < head.len() {
                assert(unknown_call(head[i].1[p], table) is Some);
            }
        }
    }
}

proof fn lemma_linked_len(
    objects: Seq<(Seq<char>, Seq<PreInstructionView>)>,
    table: Seq<(Seq<char>, nat)>,
)
    ensures
        linked_code(objects, table).len() == total_size(objects),
    decreases objects.len(),
{
    if objects.len() > 0 {
        lemma_linked_len(objects.drop_last(), table);
    }
}

proof fn lemma_base_ascends(objects: Seq<(Seq<char>, Seq<PreInstructionView>)>, i: int, j: int)
    requires
        0 <= i <= j <= objects.len(),
    ensures
        base_address(objects, i) <= base_address(objects, j),
        base_address(objects, j) <= total_size(objects),
    decreases j - i,
{
    if j > 0 {
        lemma_total_size_take(objects, j - 1);
    } else {
    }
    if i < j {
        lemma_base_ascends(objects, i, j - 1);
    }
}

proof fn lemma_linked_at(
    objects: Seq<(Seq<char>, Seq<PreInstructionView>)>,
    table: Seq<(Seq<char>, nat)>,
    i: int,
    q: int,
)
    requires
        0 <= i < objects.len(),
        0 <= q < objects[i].1.len(),
    ensures
        base_address(objects, i) + q < total_size(objects),
        linked_code(objects, table)[base_address(objects, i) + q] == resolved(
            objects[i].1[q],
            base_address(objects, i),
            table,
        ),
    decreases objects.len(),
{
    let head = objects.drop_last();
    lemma_linked_len(head, table);
    if i + 1 == objects.len() {
    } else {
        lemma_linked_at(head, table, i, q);
        assert(head.take(i) == objects.take(i));
    }
}

proof fn lemma_locate(objects: Seq<(Seq<char>, Seq<PreInstructionView>)>, p: int) -> (place: (
    int,
    int,
))
    requires
        0 <= p < total_size(objects),
    ensures
        0 <= place.0 < objects.len(),
        0 <= place.1 < objects[place.0].1.len(),
        p == base_address(objects, place.0) + place.1,
    decreases objects.len(),
{
    let head = objects.drop_last();
    let last = objects.len() - 1;
    if p < total_size(head) {
        let place = lemma_locate(head, p);
        assert(head.take(place.0) == objects.take(place.0));
        place
    } else {
        (last, p - total_size(head))
    }
}

/// Linked code of procedures is sound: if the code of every object is made
/// like that of a procedure and every call names one of the objects, then
/// every instruction of the linked code keeps the machine inside the code,
/// and every entry point is an address of the code.
pub proof fn lemma_linked_code_is_sound(objects: Seq<(Seq<char>, Seq<PreInstructionView>)>)
    requires
        forall|i: int| 0 <= i < objects.len() ==> procedure_code(#[trigger] objects[i].1),
        first_unknown(objects, entry_table(objects)) is None,
    ensures
        linked_code(objects, entry_table(objects)).len() == total_size(objects),
        sound_code(linked_code(objects, entry_table(objects))),
        forall|j: int|
            0 <= j < objects.len() ==> (#[trigger] entry_table(objects)[j]).1 < total_size(
                objects,
            ),
{
    let table = entry_table(objects);
    let code = linked_code(objects, table);
    let total = total_size(objects);
    lemma_linked_len(objects, table);
    lemma_unknown_call_fails(objects, table);
    assert forall|j: int| 0 <= j < objects.len() implies (#[trigger] table[j]).1 < total by {
        lemma_total_size_take(objects, j);
    }
    assert forall|p: int| 0 <= p < code.len() implies sound_instruction(
        #[trigger] code[p],
        p as nat,
        code.len(),
    ) by {
        let (i, q) = lemma_locate(objects, p);
        let base = base_address(objects, i);
        let object = objects[i].1;
        let instruction = object[q];
        lemma_linked_at(objects, table, i, q);
        lemma_total_size_take(objects, i);
        if q == object.len() - 1 {
        } else {
            assert(object.drop_last()[q] == instruction);
            match instruction {
                PreInstructionView::Ret => {},
                PreInstructionView::Msg(_) => {
                },
                PreInstructionView::Wait => {
                },
                PreInstructionView::Jmp(target) => {
                },
                PreInstructionView::PushPtr(pushed) => {
                },
                PreInstructionView::Branch(leaves) => {
                    let moved = relocated_leaves(leaves, base);
                    assert forall|k: int| 0 <= k < moved.len() implies (#[trigger] moved[
                        k
                    ]).target <= total - 1 by {
                    }
                },
                PreInstructionView::UnresolvedCall(name) => {
                    let k = choose|k: int|
                        0 <= k < table.len() && (#[trigger] table[k]).0 == name;
                    let found = key_index(table, name);
                    if found <= i {
                        lemma_base_ascends(objects, found, i);
                    } else {
                        lemma_base_ascends(objects, i + 1, found);
                    }
                },
            }
        }
    }
}

/// The layout of procedures fits the machine as soon as their number of
/// instructions does: code that is made like that of a procedure holds no
/// address beyond its own end.
pub proof fn lemma_procedures_are_relocatable(objects: Seq<(Seq<char>, Seq<PreInstructionView>)>)
    requires
        forall|i: int| 0 <= i < objects.len() ==> procedure_code(#[trigger] objects[i].1),
        total_size(objects) <= usize::MAX,
    ensures
        relocatable(objects),
{
    assert forall|i: int, p: int|
        0 <= i < objects.len() && 0 <= p < objects[i].1.len() implies fits(
        #[trigger] objects[i].1[p],
        base_address(objects, i),
    ) by {
        let object = objects[i].1;
        lemma_total_size_take(objects, i);
        if p < object.len() - 1 {
            assert(object.drop_last()[p] == object[p]);
        }
    }
}

/// Compiled scripts are sound: the code that is generated from the
/// procedures of a script and linked keeps the machine inside the code,
/// provided that every call names a procedure of the script. An engine
/// that starts at one of its entry points therefore never fails with
/// `SelfJump` or `AddressOutOfRange`.
pub proof fn lemma_compiled_code_is_sound(procs: Seq<(Seq<char>, Seq<AstView>)>)
    requires
        first_unknown(generate_all(procs), entry_table(generate_all(procs))) is None,
    ensures
        sound_code(linked_code(generate_all(procs), entry_table(generate_all(procs)))),
        forall|j: int|
            0 <= j < procs.len() ==> (#[trigger] entry_table(generate_all(procs))[j]).1
                < linked_code(generate_all(procs), entry_table(generate_all(procs))).len(),
{
    let objects = generate_all(procs);
    assert forall|i: int| 0 <= i < objects.len() implies procedure_code(
        #[trigger] objects[i].1,
    ) by {
        lemma_generate_procedure(procs[i].1);
    }
    lemma_linked_code_is_sound(objects);
}

} // verus!
