//! Reads an executable from a document of two blocks: the table of entry
//! points, then the code.

use crate::document::{is_tag, nodes_view, pairs_view, trimmed, FormatError, Node, NodeView};
use crate::linker::{
    lemma_code_is_machine_sized, machine_executable, machine_instruction, machine_table,
    Executable, ExecutableView,
};
use crate::opcode_saver::{
    encode_executable, encode_instruction, encode_leaf, storable_code, storable_instruction,
    storable_table,
};
use crate::tables::{
    has_key, inserted, lemma_inserted, table_entries, table_insert, table_new,
};
use crate::vm::{
    code_view, leaves_view, leaves_within, BranchLeaf, Instruction, InstructionView, LeafView,
};
use linked_hash_map::LinkedHashMap;
use vstd::prelude::*;

verus! {

/// The address that an integer of a document stands for.
pub open spec fn decode_address(number: int) -> Result<nat, FormatError> {
    if number < 0 {
        Err(FormatError::NegativeAddress)
    } else if number > usize::MAX {
        Err(FormatError::AddressTooLarge)
    } else {
        Ok(number as nat)
    }
}

/// The leaf that a value stands for: a mapping with one key, the label,
/// whose value is the address.
pub open spec fn decode_leaf(node: NodeView) -> Result<LeafView, FormatError> {
    match node {
        NodeView::Hash(pairs) => if pairs.len() != 1 {
            Err(FormatError::WrongKeyArity)
        } else {
            match pairs[0] {
                (NodeView::String(name), NodeView::Integer(number)) => match decode_address(
                    number,
                ) {
                    Ok(target) => Ok(LeafView { name, target }),
                    Err(error) => Err(error),
                },
                _ => Err(FormatError::Malformed),
            }
        },
        _ => Err(FormatError::Malformed),
    }
}

/// The leaves that the values stand for, or the error of the first value
/// that stands for none.
pub open spec fn decode_leaves(options: Seq<NodeView>) -> Result<Seq<LeafView>, FormatError>
    decreases options.len(),
{
    if options.len() == 0 {
        Ok(Seq::empty())
    } else {
        match decode_leaves(options.drop_last()) {
            Err(error) => Err(error),
            Ok(leaves) => match decode_leaf(options.last()) {
                Err(error) => Err(error),
                Ok(leaf) => Ok(leaves.push(leaf)),
            },
        }
    }
}

/// The instruction that a value stands for: the bare tag `wait` or
/// `return`; or a mapping with the one key `print`, whose value is the
/// text; with the one key `jump` or `push_return`, whose value is the
/// address; or with the one key `choose`, whose value is the array of the
/// leaves. White space around a tag does not count.
pub open spec fn decode_instruction(node: NodeView) -> Result<InstructionView, FormatError> {
    match node {
        NodeView::String(tag) => if trimmed(tag) == "wait"@ {
            Ok(InstructionView::Wait)
        } else if trimmed(tag) == "return"@ {
            Ok(InstructionView::Ret)
        } else {
            Err(FormatError::UnknownTag)
        },
        NodeView::Hash(pairs) => if pairs.len() != 1 {
            Err(FormatError::WrongKeyArity)
        } else {
            match pairs[0].0 {
                NodeView::String(tag) => if trimmed(tag) == "print"@ {
                    match pairs[0].1 {
                        NodeView::String(text) => Ok(InstructionView::Msg(text)),
                        _ => Err(FormatError::Malformed),
                    }
                } else if trimmed(tag) == "jump"@ {
                    match pairs[0].1 {
                        NodeView::Integer(number) => match decode_address(number) {
                            Ok(target) => Ok(InstructionView::Jmp(target)),
                            Err(error) => Err(error),
                        },
                        _ => Err(FormatError::Malformed),
                    }
                } else if trimmed(tag) == "push_return"@ {
                    match pairs[0].1 {
                        NodeView::Integer(number) => match decode_address(number) {
                            Ok(address) => Ok(InstructionView::PushPtr(address)),
                            Err(error) => Err(error),
                        },
                        _ => Err(FormatError::Malformed),
                    }
                } else if trimmed(tag) == "choose"@ {
                    match pairs[0].1 {
                        NodeView::Array(options) => match decode_leaves(options) {
                            Ok(leaves) => Ok(InstructionView::Branch(leaves)),
                            Err(error) => Err(error),
                        },
                        _ => Err(FormatError::Malformed),
                    }
                } else {
                    Err(FormatError::UnknownTag)
                },
                _ => Err(FormatError::Malformed),
            }
        },
        _ => Err(FormatError::Malformed),
    }
}

/// The instructions that the values stand for, or the error of the first
/// value that stands for none.
pub open spec fn decode_instructions(items: Seq<NodeView>) -> Result<
    Seq<InstructionView>,
    FormatError,
>
    decreases items.len(),
{
    if items.len() == 0 {
        Ok(Seq::empty())
    } else {
        match decode_instructions(items.drop_last()) {
            Err(error) => Err(error),
            Ok(code) => match decode_instruction(items.last()) {
                Err(error) => Err(error),
                Ok(instruction) => Ok(code.push(instruction)),
            },
        }
    }
}

/// The code that a block stands for: an array of instructions.
pub open spec fn decode_code(node: NodeView) -> Result<Seq<InstructionView>, FormatError> {
    match node {
        NodeView::Array(items) => decode_instructions(items),
        _ => Err(FormatError::WrongRootShape),
    }
}

/// The entry points that the pairs of a mapping stand for: each key is a
/// name and each value its address. A name that comes twice keeps its
/// later address, at the later place.
pub open spec fn decode_entries(pairs: Seq<(NodeView, NodeView)>) -> Result<
    Seq<(Seq<char>, nat)>,
    FormatError,
>
    decreases pairs.len(),
{
    if pairs.len() == 0 {
        Ok(Seq::empty())
    } else {
        match decode_entries(pairs.drop_last()) {
            Err(error) => Err(error),
            Ok(table) => match pairs.last() {
                (NodeView::String(name), NodeView::Integer(number)) => match decode_address(
                    number,
                ) {
                    Ok(address) => Ok(inserted(table, name, address)),
                    Err(error) => Err(error),
                },
                _ => Err(FormatError::Malformed),
            },
        }
    }
}

/// The table of entry points that a block stands for: a mapping from names
/// to addresses.
pub open spec fn decode_table(node: NodeView) -> Result<Seq<(Seq<char>, nat)>, FormatError> {
    match node {
        NodeView::Hash(pairs) => decode_entries(pairs),
        _ => Err(FormatError::WrongRootShape),
    }
}

/// The executable that a document stands for. Its last block is the code
/// and the block before that the table of entry points; the code is read
/// first.
pub open spec fn decode_executable(blocks: Seq<NodeView>) -> Result<ExecutableView, FormatError> {
    if blocks.len() < 2 {
        Err(FormatError::WrongRootShape)
    } else {
        match decode_code(blocks[blocks.len() - 1]) {
            Err(error) => Err(error),
            Ok(code) => match decode_table(blocks[blocks.len() - 2]) {
                Err(error) => Err(error),
                Ok(entry_points) => Ok(ExecutableView { entry_points, code }),
            },
        }
    }
}

proof fn lemma_decode_leaves_prefix(options: Seq<NodeView>, n: int)
    requires
        0 <= n <= options.len(),
        decode_leaves(options.take(n)) is Err,
    ensures
        decode_leaves(options) == decode_leaves(options.take(n)),
    decreases options.len(),
{
    if n == options.len() {
        assert(options.take(n) == options);
    } else {
        assert(options.drop_last().take(n) == options.take(n));
        lemma_decode_leaves_prefix(options.drop_last(), n);
    }
}

proof fn lemma_decode_instructions_prefix(items: Seq<NodeView>, n: int)
    requires
        0 <= n <= items.len(),
        decode_instructions(items.take(n)) is Err,
    ensures
        decode_instructions(items) == decode_instructions(items.take(n)),
    decreases items.len(),
{
    if n == items.len() {
        assert(items.take(n) == items);
    } else {
        assert(items.drop_last().take(n) == items.take(n));
        lemma_decode_instructions_prefix(items.drop_last(), n);
    }
}

proof fn lemma_decode_entries_prefix(pairs: Seq<(NodeView, NodeView)>, n: int)
    requires
        0 <= n <= pairs.len(),
        decode_entries(pairs.take(n)) is Err,
    ensures
        decode_entries(pairs) == decode_entries(pairs.take(n)),
    decreases pairs.len(),
{
    if n == pairs.len() {
        assert(pairs.take(n) == pairs);
    } else {
        assert(pairs.drop_last().take(n) == pairs.take(n));
        lemma_decode_entries_prefix(pairs.drop_last(), n);
    }
}

/// Reads an address.
fn parse_address(number: i64) -> (parsed: Result<usize, FormatError>)
    ensures
        match parsed {
            Ok(address) => decode_address(number as int) == Ok::<nat, FormatError>(address as nat),
            Err(error) => decode_address(number as int) == Err::<nat, FormatError>(error),
        },
{
    if number < 0 {
        Err(FormatError::NegativeAddress)
    } else if number as u64 > usize::MAX as u64 {
        Err(FormatError::AddressTooLarge)
    } else {
        Ok(number as usize)
    }
}

/// Reads one leaf of a branch.
fn parse_leaf(option: Node) -> (parsed: Result<BranchLeaf, FormatError>)
    ensures
        match parsed {
            Ok(leaf) => decode_leaf(option@) == Ok::<LeafView, FormatError>(leaf@),
            Err(error) => decode_leaf(option@) == Err::<LeafView, FormatError>(error),
        },
{
    match option {
        Node::Hash(pairs) => {
            let mut pairs = pairs;
            assert(pairs_view(pairs@).len() == pairs@.len());
            if pairs.len() != 1 {
                return Err(FormatError::WrongKeyArity);
            }
            match pairs.pop() {
                Some((Node::String(option_name), Node::Integer(number))) => {
                    match parse_address(number) {
                        Ok(jmp_address) => Ok(BranchLeaf { option_name, jmp_address }),
                        Err(error) => Err(error),
                    }
                },
                _ => Err(FormatError::Malformed),
            }
        },
        _ => Err(FormatError::Malformed),
    }
}

/// Reads the leaves of a branch.
fn parse_leaves(options: Vec<Node>) -> (parsed: Result<Vec<BranchLeaf>, FormatError>)
    ensures
        match parsed {
            Ok(leaves) => decode_leaves(nodes_view(options@)) == Ok::<Seq<LeafView>, FormatError>(
                leaves_view(leaves@),
            ),
            Err(error) => decode_leaves(nodes_view(options@)) == Err::<
                Seq<LeafView>,
                FormatError,
            >(error),
        },
{
    let ghost items = nodes_view(options@);
    let mut leaves: Vec<BranchLeaf> = Vec::new();
    assert(leaves_view(leaves@) =~= Seq::empty());
    for option in it: options.into_iter()
        invariant
            it.seq() == options@,
            items == nodes_view(options@),
            decode_leaves(items.take(it.index())) == Ok::<Seq<LeafView>, FormatError>(
                leaves_view(leaves@),
            ),
    {
        let ghost index = it.index();
        let ghost before = leaves@;
        proof {
            assert(items.take(index + 1).drop_last() == items.take(index));
        }
        match parse_leaf(option) {
            Ok(leaf) => {
                leaves.push(leaf);
                assert(leaves_view(leaves@) =~= leaves_view(before).push(leaf@));
            },
            Err(error) => {
                proof {
                    lemma_decode_leaves_prefix(items, index + 1);
                }
                return Err(error);
            },
        }
    }
    assert(items.take(items.len() as int) == items);
    Ok(leaves)
}

/// Reads one instruction from a document.
///
/// Fails with `UnknownTag` where the tag is none that the format knows;
/// with `WrongKeyArity` where the instruction or a leaf is a mapping of
/// none or several keys; with `NegativeAddress` or `AddressTooLarge` where
/// an address is out of range; with `Malformed` where a value is of another
/// kind than the format asks for.
pub fn parse_yaml_opcode_impl(ast: Node) -> (parsed: Result<Instruction, FormatError>)
    ensures
        match parsed {
            Ok(opcode) => decode_instruction(ast@) == Ok::<InstructionView, FormatError>(opcode@),
            Err(error) => decode_instruction(ast@) == Err::<InstructionView, FormatError>(error),
        },
{
    match ast {
        Node::String(tag) => {
            if is_tag(tag.as_str(), "wait") {
                Ok(Instruction::Wait)
            } else if is_tag(tag.as_str(), "return") {
                Ok(Instruction::Ret)
            } else {
                Err(FormatError::UnknownTag)
            }
        },
        Node::Hash(pairs) => {
            let mut pairs = pairs;
            assert(pairs_view(pairs@).len() == pairs@.len());
            if pairs.len() != 1 {
                return Err(FormatError::WrongKeyArity);
            }
            match pairs.pop() {
                Some((Node::String(tag), value)) => {
                    if is_tag(tag.as_str(), "print") {
                        match value {
                            Node::String(text) => Ok(Instruction::Msg(text)),
                            _ => Err(FormatError::Malformed),
                        }
                    } else if is_tag(tag.as_str(), "jump") {
                        match value {
                            Node::Integer(number) => match parse_address(number) {
                                Ok(target) => Ok(Instruction::Jmp(target)),
                                Err(error) => Err(error),
                            },
                            _ => Err(FormatError::Malformed),
                        }
                    } else if is_tag(tag.as_str(), "push_return") {
                        match value {
                            Node::Integer(number) => match parse_address(number) {
                                Ok(address) => Ok(Instruction::PushPtr(address)),
                                Err(error) => Err(error),
                            },
                            _ => Err(FormatError::Malformed),
                        }
                    } else if is_tag(tag.as_str(), "choose") {
                        match value {
                            Node::Array(options) => match parse_leaves(options) {
                                Ok(leaves) => Ok(Instruction::Branch(leaves)),
                                Err(error) => Err(error),
                            },
                            _ => Err(FormatError::Malformed),
                        }
                    } else {
                        Err(FormatError::UnknownTag)
                    }
                },
                _ => Err(FormatError::Malformed),
            }
        },
        _ => Err(FormatError::Malformed),
    }
}

/// Reads code from a block of a document.
///
/// Fails with `WrongRootShape` unless the block is an array, and otherwise
/// with the error of the first value that is no instruction.
pub fn parse_yaml_opcode(yaml_ast: Node) -> (parsed: Result<Vec<Instruction>, FormatError>)
    ensures
        match parsed {
            Ok(opcodes) => decode_code(yaml_ast@) == Ok::<Seq<InstructionView>, FormatError>(
                code_view(opcodes@),
            ),
            Err(error) => decode_code(yaml_ast@) == Err::<Seq<InstructionView>, FormatError>(
                error,
            ),
        },
{
    match yaml_ast {
        Node::Array(instrs) => {
            let ghost items = nodes_view(instrs@);
            let mut opcodes: Vec<Instruction> = Vec::new();
            assert(code_view(opcodes@) =~= Seq::empty());
            for instr in it: instrs.into_iter()
                invariant
                    it.seq() == instrs@,
                    items == nodes_view(instrs@),
                    yaml_ast@ == NodeView::Array(items),
                    decode_instructions(items.take(it.index())) == Ok::<
                        Seq<InstructionView>,
                        FormatError,
                    >(code_view(opcodes@)),
            {
                let ghost index = it.index();
                let ghost before = opcodes@;
                proof {
                    assert(items.take(index + 1).drop_last() == items.take(index));
                }
                match parse_yaml_opcode_impl(instr) {
                    Ok(opcode) => {
                        opcodes.push(opcode);
                        assert(code_view(opcodes@) =~= code_view(before).push(opcode@));
                    },
                    Err(error) => {
                        proof {
                            lemma_decode_instructions_prefix(items, index + 1);
                        }
                        return Err(error);
                    },
                }
            }
            assert(items.take(items.len() as int) == items);
            Ok(opcodes)
        },
        _ => Err(FormatError::WrongRootShape),
    }
}

/// Reads a table of entry points from a block of a document.
///
/// Fails with `WrongRootShape` unless the block is a mapping; with
/// `Malformed` where a name is no text or an address no integer; with
/// `NegativeAddress` or `AddressTooLarge` where an address is out of range.
pub fn parse_yaml_entry_table(yaml_ast: Node) -> (parsed: Result<
    LinkedHashMap<String, usize>,
    FormatError,
>)
    ensures
        match parsed {
            Ok(table) => decode_table(yaml_ast@) == Ok::<Seq<(Seq<char>, nat)>, FormatError>(
                table_entries(table),
            ),
            Err(error) => decode_table(yaml_ast@) == Err::<Seq<(Seq<char>, nat)>, FormatError>(
                error,
            ),
        },
        parsed matches Ok(table) ==> machine_table(table_entries(table)),
{
    match yaml_ast {
        Node::Hash(entries) => {
            let ghost items = pairs_view(entries@);
            let mut table = table_new();
            for entry in it: entries.into_iter()
                invariant
                    it.seq() == entries@,
                    items == pairs_view(entries@),
                    yaml_ast@ == NodeView::Hash(items),
                    decode_entries(items.take(it.index())) == Ok::<
                        Seq<(Seq<char>, nat)>,
                        FormatError,
                    >(table_entries(table)),
                    machine_table(table_entries(table)),
            {
                let ghost index = it.index();
                proof {
                    assert(items.take(index + 1).drop_last() == items.take(index));
                }
                match entry {
                    (Node::String(name), Node::Integer(number)) => {
                        match parse_address(number) {
                            Ok(address) => {
                                proof {
                                    lemma_inserted(table_entries(table), name@, address as nat);
                                }
                                table_insert(&mut table, name, address);
                            },
                            Err(error) => {
                                proof {
                                    lemma_decode_entries_prefix(items, index + 1);
                                }
                                return Err(error);
                            },
                        }
                    },
                    _ => {
                        proof {
                            lemma_decode_entries_prefix(items, index + 1);
                        }
                        return Err(FormatError::Malformed);
                    },
                }
            }
            assert(items.take(items.len() as int) == items);
            Ok(table)
        },
        _ => Err(FormatError::WrongRootShape),
    }
}

/// Reads an executable from the blocks of a document: the last block is
/// the code, the block before it the table of entry points.
///
/// Fails with `WrongRootShape` if there are fewer than two blocks, and
/// otherwise with the error of the code or, if the code is well formed, with
/// that of the table.
pub fn parse_yaml_executable(file: Vec<Node>) -> (parsed: Result<Executable, FormatError>)
    ensures
        match parsed {
            Ok(executable) => decode_executable(nodes_view(file@)) == Ok::<
                ExecutableView,
                FormatError,
            >(executable@),
            Err(error) => decode_executable(nodes_view(file@)) == Err::<
                ExecutableView,
                FormatError,
            >(error),
        },
        parsed matches Ok(executable) ==> machine_executable(executable@),
{
    let mut file = file;
    if file.len() < 2 {
        return Err(FormatError::WrongRootShape);
    }
    let code = match file.pop() {
        Some(block) => block,
        None => {
            return Err(FormatError::WrongRootShape);
        },
    };
    let table = match file.pop() {
        Some(block) => block,
        None => {
            return Err(FormatError::WrongRootShape);
        },
    };
    let opcodes = match parse_yaml_opcode(code) {
        Ok(opcodes) => opcodes,
        Err(error) => {
            return Err(error);
        },
    };
    let entry_points = match parse_yaml_entry_table(table) {
        Ok(entry_points) => entry_points,
        Err(error) => {
            return Err(error);
        },
    };
    proof {
        lemma_code_is_machine_sized(opcodes@);
    }
    Ok(Executable { opcodes, entry_points })
}

proof fn lemma_tags()
    ensures
        trimmed("wait"@) == "wait"@,
        trimmed("return"@) == "return"@,
        trimmed("print"@) == "print"@,
        trimmed("jump"@) == "jump"@,
        trimmed("push_return"@) == "push_return"@,
        trimmed("choose"@) == "choose"@,
        "return"@ != "wait"@,
        "jump"@ != "print"@,
        "push_return"@ != "print"@,
        "push_return"@ != "jump"@,
        "choose"@ != "print"@,
        "choose"@ != "jump"@,
        "choose"@ != "push_return"@,
{
    reveal_strlit("wait");
    reveal_strlit("return");
    reveal_strlit("print");
    reveal_strlit("jump");
    reveal_strlit("push_return");
    reveal_strlit("choose");
}

proof fn lemma_leaves_round_trip(leaves: Seq<LeafView>)
    requires
        leaves_within(leaves, i64::MAX as int),
        leaves_within(leaves, usize::MAX as int),
    ensures
        decode_leaves(leaves.map_values(|leaf: LeafView| encode_leaf(leaf))) == Ok::<
            Seq<LeafView>,
            FormatError,
        >(leaves),
    decreases leaves.len(),
{
    let encoded = leaves.map_values(|leaf: LeafView| encode_leaf(leaf));
    if leaves.len() > 0 {
        lemma_leaves_round_trip(leaves.drop_last());
        assert(encoded.drop_last() =~= leaves.drop_last().map_values(
            |leaf: LeafView| encode_leaf(leaf),
        ));
        assert(leaves.drop_last().push(leaves.last()) =~= leaves);
    } else {
        assert(leaves =~= Seq::empty());
    }
}

proof fn lemma_instruction_round_trip(instruction: InstructionView)
    requires
        storable_instruction(instruction),
        machine_instruction(instruction),
    ensures
        decode_instruction(encode_instruction(instruction)) == Ok::<InstructionView, FormatError>(
            instruction,
        ),
{
    lemma_tags();
    match instruction {
        InstructionView::Branch(leaves) => {
            lemma_leaves_round_trip(leaves);
        },
        _ => {},
    }
}

proof fn lemma_code_round_trip(code: Seq<InstructionView>)
    requires
        storable_code(code),
        forall|p: int| 0 <= p < code.len() ==> machine_instruction(#[trigger] code[p]),
    ensures
        decode_instructions(
            code.map_values(|instruction: InstructionView| encode_instruction(instruction)),
        ) == Ok::<Seq<InstructionView>, FormatError>(code),
    decreases code.len(),
{
    let encoded = code.map_values(|instruction: InstructionView| encode_instruction(instruction));
    if code.len() > 0 {
        lemma_code_round_trip(code.drop_last());
        lemma_instruction_round_trip(code.last());
        assert(encoded.drop_last() =~= code.drop_last().map_values(
            |instruction: InstructionView| encode_instruction(instruction),
        ));
        assert(code.drop_last().push(code.last()) =~= code);
    } else {
        assert(code =~= Seq::empty());
    }
}

proof fn lemma_table_round_trip(table: Seq<(Seq<char>, nat)>)
    requires
        machine_table(table),
        storable_table(table),
    ensures
        decode_entries(
            table.map_values(
                |entry: (Seq<char>, nat)|
                    (NodeView::String(entry.0), NodeView::Integer(entry.1 as int)),
            ),
        ) == Ok::<Seq<(Seq<char>, nat)>, FormatError>(table),
    decreases table.len(),
{
    let encode = |entry: (Seq<char>, nat)|
        (NodeView::String(entry.0), NodeView::Integer(entry.1 as int));
    let encoded = table.map_values(encode);
    if table.len() > 0 {
        let head = table.drop_last();
        lemma_table_round_trip(head);
        assert(encoded.drop_last() =~= head.map_values(encode));
        if has_key(head, table.last().0) {
            let i = choose|i: int| 0 <= i < head.len() && (#[trigger] head[i]).0 == table.last().0;
        }
        assert(head.push(table.last()) =~= table);
    } else {
        assert(table =~= Seq::empty());
    }
}

/// Reading a written executable gives back the executable: its table of
/// entry points in the same order and its code, every address included.
///
/// This holds of the executables whose addresses a document can hold.
pub proof fn lemma_read_written_executable(executable: ExecutableView)
    requires
        machine_executable(executable),
        storable_table(executable.entry_points),
        storable_code(executable.code),
    ensures
        decode_executable(encode_executable(executable)) == Ok::<ExecutableView, FormatError>(
            executable,
        ),
{
    lemma_code_round_trip(executable.code);
    lemma_table_round_trip(executable.entry_points);
}

} // verus!
