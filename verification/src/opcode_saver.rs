//! Writes an executable as a document of two blocks: the table of entry
//! points, then the code.

use crate::document::{nodes_view, pairs_view, Node, NodeView};
use crate::linker::{
    lemma_code_is_machine_sized, machine_executable, Executable, ExecutableView,
};
use crate::tables::{addresses_view, table_entries, table_to_vec};
use crate::vm::{
    code_view, leaves_view, leaves_within, BranchLeaf, Instruction, InstructionView, LeafView,
};
use linked_hash_map::LinkedHashMap;
use vstd::prelude::*;

verus! {

/// A mapping with one key, a text, and its value.
pub open spec fn tagged(tag: Seq<char>, value: NodeView) -> NodeView {
    NodeView::Hash(seq![(NodeView::String(tag), value)])
}

/// A leaf as a document: a mapping from its label to its address.
pub open spec fn encode_leaf(leaf: LeafView) -> NodeView {
    tagged(leaf.name, NodeView::Integer(leaf.target as int))
}

/// An instruction as a document: the bare tag `return` or `wait`, or a
/// mapping from the tag `jump`, `print`, `push_return` or `choose` to the
/// payload of the instruction.
pub open spec fn encode_instruction(instruction: InstructionView) -> NodeView {
    match instruction {
        InstructionView::Ret => NodeView::String("return"@),
        InstructionView::Wait => NodeView::String("wait"@),
        InstructionView::Jmp(target) => tagged("jump"@, NodeView::Integer(target as int)),
        InstructionView::Msg(text) => tagged("print"@, NodeView::String(text)),
        InstructionView::PushPtr(address) => tagged(
            "push_return"@,
            NodeView::Integer(address as int),
        ),
        InstructionView::Branch(leaves) => tagged(
            "choose"@,
            NodeView::Array(leaves.map_values(|leaf: LeafView| encode_leaf(leaf))),
        ),
    }
}

/// Code as a document: the array of its instructions.
pub open spec fn encode_code(code: Seq<InstructionView>) -> NodeView {
    NodeView::Array(
        code.map_values(|instruction: InstructionView| encode_instruction(instruction)),
    )
}

/// A table of entry points as a document: the mapping from the names to
/// the addresses, in the order of the table.
pub open spec fn encode_table(table: Seq<(Seq<char>, nat)>) -> NodeView {
    NodeView::Hash(
        table.map_values(
            |entry: (Seq<char>, nat)|
                (NodeView::String(entry.0), NodeView::Integer(entry.1 as int)),
        ),
    )
}

/// An executable as a document: the block of its entry points, then the
/// block of its code.
pub open spec fn encode_executable(executable: ExecutableView) -> Seq<NodeView> {
    seq![encode_table(executable.entry_points), encode_code(executable.code)]
}

/// Whether a document can hold every address of the instruction: the
/// integers of a document are signed and 64 bits wide.
pub open spec fn storable_instruction(instruction: InstructionView) -> bool {
    match instruction {
        InstructionView::Jmp(target) => target <= i64::MAX,
        InstructionView::PushPtr(address) => address <= i64::MAX,
        InstructionView::Branch(leaves) => leaves_within(leaves, i64::MAX as int),
        _ => true,
    }
}

/// Whether a document can hold every address of the code.
pub open spec fn storable_code(code: Seq<InstructionView>) -> bool {
    forall|p: int| 0 <= p < code.len() ==> storable_instruction(#[trigger] code[p])
}

/// Whether a document can hold every address of the table.
pub open spec fn storable_table(table: Seq<(Seq<char>, nat)>) -> bool {
    forall|i: int| 0 <= i < table.len() ==> (#[trigger] table[i]).1 <= i64::MAX
}

/// A document of a mapping with one key.
fn tagged_node(tag: String, value: Node) -> (node: Node)
    ensures
        node@ == tagged(tag@, value@),
{
    let mut pairs: Vec<(Node, Node)> = Vec::new();
    pairs.push((Node::String(tag), value));
    let node = Node::Hash(pairs);
    assert(pairs_view(pairs@) =~= seq![(NodeView::String(tag@), value@)]);
    node
}

/// The document of the leaves of a branch.
fn leaves_into_yaml(leaves: &Vec<BranchLeaf>) -> (node: Node)
    requires
        leaves_within(leaves_view(leaves@), i64::MAX as int),
    ensures
        node@ == NodeView::Array(
            leaves_view(leaves@).map_values(|leaf: LeafView| encode_leaf(leaf)),
        ),
{
    let ghost all = leaves_view(leaves@).map_values(|leaf: LeafView| encode_leaf(leaf));
    let mut items: Vec<Node> = Vec::new();
    let mut k: usize = 0;
    while k < leaves.len()
        invariant
            k <= leaves@.len(),
            all == leaves_view(leaves@).map_values(|leaf: LeafView| encode_leaf(leaf)),
            nodes_view(items@) == all.take(k as int),
            leaves_within(leaves_view(leaves@), i64::MAX as int),
        decreases leaves@.len() - k,
    {
        let leaf = &leaves[k];
        let ghost before = items@;
        let item = tagged_node(leaf.option_name.clone(), Node::Integer(leaf.jmp_address as i64));
        items.push(item);
        proof {
            assert(nodes_view(items@) =~= nodes_view(before).push(item@));
        }
        k += 1;
    }
    assert(all.take(all.len() as int) == all);
    Node::Array(items)
}

/// The document of one instruction.
fn opcode_into_yaml(opcode: &Instruction) -> (node: Node)
    requires
        storable_instruction(opcode@),
    ensures
        node@ == encode_instruction(opcode@),
{
    match opcode {
        Instruction::Ret => Node::String("return".to_string()),
        Instruction::Wait => Node::String("wait".to_string()),
        Instruction::Jmp(target) => tagged_node(
            "jump".to_string(),
            Node::Integer(*target as i64),
        ),
        Instruction::Msg(text) => tagged_node("print".to_string(), Node::String(text.clone())),
        Instruction::PushPtr(address) => tagged_node(
            "push_return".to_string(),
            Node::Integer(*address as i64),
        ),
        Instruction::Branch(leaves) => tagged_node("choose".to_string(), leaves_into_yaml(leaves)),
    }
}

/// Writes code as a document.
///
/// The document has to be able to hold every address of the code.
pub fn opcodes_into_yaml(opcodes: &[Instruction]) -> (node: Node)
    requires
        storable_code(code_view(opcodes@)),
    ensures
        node@ == encode_code(code_view(opcodes@)),
{
    let ghost code = code_view(opcodes@);
    let ghost all = code.map_values(|instruction: InstructionView| encode_instruction(instruction));
    let mut items: Vec<Node> = Vec::new();
    let mut p: usize = 0;
    while p < opcodes.len()
        invariant
            p <= opcodes@.len(),
            code == code_view(opcodes@),
            storable_code(code),
            all == code.map_values(|instruction: InstructionView| encode_instruction(instruction)),
            nodes_view(items@) == all.take(p as int),
        decreases opcodes@.len() - p,
    {
        assert(code[p as int] == opcodes@[p as int]@);
        let ghost before = items@;
        let item = opcode_into_yaml(&opcodes[p]);
        items.push(item);
        proof {
            assert(nodes_view(items@) =~= nodes_view(before).push(item@));
        }
        p += 1;
    }
    assert(all.take(all.len() as int) == all);
    Node::Array(items)
}

/// Writes a table of entry points as a document.
///
/// The document has to be able to hold every address of the table.
pub fn entry_points_into_yaml(opcodes: &LinkedHashMap<String, usize>) -> (node: Node)
    requires
        storable_table(table_entries(*opcodes)),
    ensures
        node@ == encode_table(table_entries(*opcodes)),
{
    let entries = table_to_vec(opcodes);
    let ghost table = table_entries(*opcodes);
    let ghost all = table.map_values(
        |entry: (Seq<char>, nat)| (NodeView::String(entry.0), NodeView::Integer(entry.1 as int)),
    );
    let mut pairs: Vec<(Node, Node)> = Vec::new();
    for entry in it: entries.into_iter()
        invariant
            it.seq() == entries@,
            table == addresses_view(entries@),
            storable_table(table),
            all == table.map_values(
                |entry: (Seq<char>, nat)|
                    (NodeView::String(entry.0), NodeView::Integer(entry.1 as int)),
            ),
            pairs_view(pairs@) == all.take(it.index()),
    {
        let ghost index = it.index();
        let ghost before = pairs@;
        let (name, address) = entry;
        pairs.push((Node::String(name), Node::Integer(address as i64)));
        proof {
            assert(pairs_view(pairs@) =~= pairs_view(before).push(all[index]));
        }
    }
    assert(all.take(all.len() as int) == all);
    Node::Hash(pairs)
}

/// Writes an executable as a document of two blocks: the entry points,
/// then the code.
///
/// The document has to be able to hold every address of the executable.
pub fn executable_into_yaml(exe: &Executable) -> (blocks: Vec<Node>)
    requires
        storable_table(exe@.entry_points),
        storable_code(exe@.code),
    ensures
        nodes_view(blocks@) == encode_executable(exe@),
{
    let mut blocks: Vec<Node> = Vec::new();
    blocks.push(entry_points_into_yaml(&exe.entry_points));
    blocks.push(opcodes_into_yaml(exe.opcodes.as_slice()));
    blocks
}

/// Whether a document can hold the address.
fn can_store(address: usize) -> (ok: bool)
    ensures
        ok == (address <= i64::MAX),
{
    address as u64 <= i64::MAX as u64
}

/// Whether a document can hold every address of the instruction.
fn can_store_opcode(opcode: &Instruction) -> (ok: bool)
    ensures
        ok == storable_instruction(opcode@),
{
    match opcode {
        Instruction::Jmp(target) => can_store(*target),
        Instruction::PushPtr(address) => can_store(*address),
        Instruction::Branch(leaves) => {
            let ghost all = leaves_view(leaves@);
            let mut k: usize = 0;
            while k < leaves.len()
                invariant
                    k <= leaves@.len(),
                    all == leaves_view(leaves@),
                    opcode@ == InstructionView::Branch(all),
                    forall|j: int| 0 <= j < k ==> (#[trigger] all[j]).target <= i64::MAX,
                decreases leaves@.len() - k,
            {
                assert(all[k as int] == leaves@[k as int]@);
                if !can_store(leaves[k].jmp_address) {
                    return false;
                }
                k += 1;
            }
            true
        },
        _ => true,
    }
}

/// Whether a document can hold every address of the executable.
fn can_store_executable(exe: &Executable) -> (ok: bool)
    ensures
        ok == (storable_table(exe@.entry_points) && storable_code(exe@.code)),
        machine_executable(exe@),
{
    let entries = table_to_vec(&exe.entry_points);
    let ghost table = exe@.entry_points;
    proof {
        lemma_code_is_machine_sized(exe.opcodes@);
        assert forall|i: int| 0 <= i < table.len() implies (#[trigger] table[i]).1
            <= usize::MAX by {
            assert(table[i].1 == entries@[i].1);
        }
        assert(machine_executable(exe@));
    }
    let mut i: usize = 0;
    while i < entries.len()
        invariant
            i <= entries@.len(),
            machine_executable(exe@),
            table == exe@.entry_points,
            table == addresses_view(entries@),
            forall|j: int| 0 <= j < i ==> (#[trigger] table[j]).1 <= i64::MAX,
        decreases entries@.len() - i,
    {
        assert(table[i as int].1 == entries@[i as int].1);
        if !can_store(entries[i].1) {
            return false;
        }
        i += 1;
    }
    let ghost code = exe@.code;
    let mut p: usize = 0;
    while p < exe.opcodes.len()
        invariant
            p <= exe.opcodes@.len(),
            machine_executable(exe@),
            code == code_view(exe.opcodes@),
            storable_table(exe@.entry_points),
            forall|q: int| 0 <= q < p ==> storable_instruction(#[trigger] code[q]),
        decreases exe.opcodes@.len() - p,
    {
        assert(code[p as int] == exe.opcodes@[p as int]@);
        if !can_store_opcode(&exe.opcodes[p]) {
            return false;
        }
        p += 1;
    }
    true
}

/// Writes an executable as a document, if a document can hold every
/// address of it, as [`executable_into_yaml`] does; hands out nothing if
/// it cannot.
pub fn try_executable_into_yaml(exe: &Executable) -> (blocks: Option<Vec<Node>>)
    ensures
        match blocks {
            Some(written) => {
                &&& storable_table(exe@.entry_points)
                &&& storable_code(exe@.code)
                &&& machine_executable(exe@)
                &&& nodes_view(written@) == encode_executable(exe@)
            },
            None => !(storable_table(exe@.entry_points) && storable_code(exe@.code)),
        },
{
    if can_store_executable(exe) {
        Some(executable_into_yaml(exe))
    } else {
        None
    }
}

} // verus!
