use dialogue_engine::document::{FormatError, Node};
use dialogue_engine::linker::Executable;
use dialogue_engine::opcode_loader::{
    parse_yaml_entry_table, parse_yaml_executable, parse_yaml_opcode, parse_yaml_opcode_impl,
};
use dialogue_engine::opcode_saver::{
    entry_points_into_yaml, executable_into_yaml, opcodes_into_yaml,
};
use dialogue_engine::parser::{parse_yaml, Ast};
use dialogue_engine::vm::{BranchLeaf, Instruction};
use linked_hash_map::LinkedHashMap;

fn s(words: &str) -> Node {
    Node::String(words.to_string())
}

fn n(number: i64) -> Node {
    Node::Integer(number)
}

fn one(key: &str, value: Node) -> Node {
    Node::Hash(vec![(s(key), value)])
}

fn sample_code() -> Vec<Instruction> {
    vec![
        Instruction::Branch(vec![
            BranchLeaf { option_name: "yes".to_string(), jmp_address: 1 },
            BranchLeaf { option_name: "no".to_string(), jmp_address: 0 },
        ]),
        Instruction::Msg(" spaced text ".to_string()),
        Instruction::PushPtr(4),
        Instruction::Jmp(0),
        Instruction::Wait,
        Instruction::Ret,
    ]
}

fn sample_table() -> LinkedHashMap<String, usize> {
    let mut table = LinkedHashMap::new();
    table.insert("main".to_string(), 0);
    table.insert("aside".to_string(), 4);
    table.insert("b".to_string(), 2);
    table
}

fn listed(table: &LinkedHashMap<String, usize>) -> Vec<(String, usize)> {
    table.iter().map(|(name, address)| (name.clone(), *address)).collect()
}

fn procs_of(file: dialogue_engine::parser::File) -> Vec<(String, Vec<Ast>)> {
    file.procs.into_iter().collect()
}

#[test]
fn code_is_written_with_its_tags() {
    assert_eq!(
        opcodes_into_yaml(&sample_code()),
        Node::Array(vec![
            one("choose", Node::Array(vec![one("yes", n(1)), one("no", n(0))])),
            one("print", s(" spaced text ")),
            one("push_return", n(4)),
            one("jump", n(0)),
            s("wait"),
            s("return"),
        ])
    );
}

#[test]
fn entry_points_are_written_in_their_order() {
    assert_eq!(
        entry_points_into_yaml(&sample_table()),
        Node::Hash(vec![(s("main"), n(0)), (s("aside"), n(4)), (s("b"), n(2))])
    );
}

#[test]
fn executable_is_written_as_table_then_code() {
    let exe = Executable { entry_points: sample_table(), opcodes: sample_code() };
    let blocks = executable_into_yaml(&exe);
    assert_eq!(blocks.len(), 2);
    assert_eq!(blocks[0], entry_points_into_yaml(&sample_table()));
    assert_eq!(blocks[1], opcodes_into_yaml(&sample_code()));
}

#[test]
fn written_executable_reads_back_the_same() {
    let exe = Executable { entry_points: sample_table(), opcodes: sample_code() };
    let read = parse_yaml_executable(executable_into_yaml(&exe)).unwrap();
    assert_eq!(read.opcodes, sample_code());
    assert_eq!(listed(&read.entry_points), listed(&sample_table()));
}

#[test]
fn tags_are_read_without_the_space_around_them() {
    assert_eq!(parse_yaml_opcode_impl(s("  wait\n")), Ok(Instruction::Wait));
    assert_eq!(parse_yaml_opcode_impl(s("\treturn ")), Ok(Instruction::Ret));
    assert_eq!(parse_yaml_opcode_impl(s("\u{3000}return\u{a0}\u{2003}")), Ok(Instruction::Ret));
    assert_eq!(parse_yaml_opcode_impl(one(" jump ", n(3))), Ok(Instruction::Jmp(3)));
    assert_eq!(
        parse_yaml_opcode_impl(one("print\r\n", s(" kept "))),
        Ok(Instruction::Msg(" kept ".to_string()))
    );
    assert_eq!(parse_yaml_opcode_impl(s("re turn")), Err(FormatError::UnknownTag));
    assert_eq!(parse_yaml_opcode_impl(s("\u{200b}wait")), Err(FormatError::UnknownTag));
}

#[test]
fn labels_of_leaves_are_kept_as_they_are() {
    assert_eq!(
        parse_yaml_opcode_impl(one("choose", Node::Array(vec![one(" a ", n(0))]))),
        Ok(Instruction::Branch(vec![BranchLeaf {
            option_name: " a ".to_string(),
            jmp_address: 0
        }]))
    );
}

#[test]
fn unknown_tags_are_refused() {
    assert_eq!(parse_yaml_opcode_impl(s("ret")), Err(FormatError::UnknownTag));
    assert_eq!(parse_yaml_opcode_impl(s("")), Err(FormatError::UnknownTag));
    assert_eq!(parse_yaml_opcode_impl(one("jmp", n(1))), Err(FormatError::UnknownTag));
    assert_eq!(parse_yaml_opcode_impl(one("wait", n(1))), Err(FormatError::UnknownTag));
}

#[test]
fn mappings_of_other_than_one_key_are_refused() {
    assert_eq!(parse_yaml_opcode_impl(Node::Hash(vec![])), Err(FormatError::WrongKeyArity));
    assert_eq!(
        parse_yaml_opcode_impl(Node::Hash(vec![(s("jump"), n(1)), (s("print"), s("x"))])),
        Err(FormatError::WrongKeyArity)
    );
    assert_eq!(
        parse_yaml_opcode_impl(one(
            "choose",
            Node::Array(vec![Node::Hash(vec![(s("a"), n(1)), (s("b"), n(2))])])
        )),
        Err(FormatError::WrongKeyArity)
    );
}

#[test]
fn negative_addresses_are_refused() {
    assert_eq!(parse_yaml_opcode_impl(one("jump", n(-1))), Err(FormatError::NegativeAddress));
    assert_eq!(
        parse_yaml_opcode_impl(one("push_return", n(i64::MIN))),
        Err(FormatError::NegativeAddress)
    );
    assert_eq!(
        parse_yaml_opcode_impl(one("choose", Node::Array(vec![one("a", n(0)), one("b", n(-7))]))),
        Err(FormatError::NegativeAddress)
    );
    assert_eq!(
        parse_yaml_entry_table(Node::Hash(vec![(s("main"), n(-1))])).err(),
        Some(FormatError::NegativeAddress)
    );
}

#[test]
fn values_of_the_wrong_kind_are_refused() {
    assert_eq!(parse_yaml_opcode_impl(n(4)), Err(FormatError::Malformed));
    assert_eq!(parse_yaml_opcode_impl(Node::Other), Err(FormatError::Malformed));
    assert_eq!(parse_yaml_opcode_impl(Node::Array(vec![])), Err(FormatError::Malformed));
    assert_eq!(parse_yaml_opcode_impl(one("jump", s("3"))), Err(FormatError::Malformed));
    assert_eq!(parse_yaml_opcode_impl(one("print", n(3))), Err(FormatError::Malformed));
    assert_eq!(parse_yaml_opcode_impl(one("choose", n(3))), Err(FormatError::Malformed));
    assert_eq!(
        parse_yaml_opcode_impl(Node::Hash(vec![(n(1), n(3))])),
        Err(FormatError::Malformed)
    );
    assert_eq!(
        parse_yaml_opcode_impl(one("choose", Node::Array(vec![s("a")]))),
        Err(FormatError::Malformed)
    );
    assert_eq!(
        parse_yaml_opcode_impl(one("choose", Node::Array(vec![one("a", s("1"))]))),
        Err(FormatError::Malformed)
    );
    assert_eq!(
        parse_yaml_entry_table(Node::Hash(vec![(s("main"), s("0"))])).err(),
        Some(FormatError::Malformed)
    );
    assert_eq!(
        parse_yaml_entry_table(Node::Hash(vec![(n(0), n(0))])).err(),
        Some(FormatError::Malformed)
    );
}

#[test]
fn blocks_of_the_wrong_shape_are_refused() {
    assert_eq!(parse_yaml_opcode(Node::Hash(vec![])), Err(FormatError::WrongRootShape));
    assert_eq!(parse_yaml_opcode(s("return")), Err(FormatError::WrongRootShape));
    assert_eq!(
        parse_yaml_entry_table(Node::Array(vec![])).err(),
        Some(FormatError::WrongRootShape)
    );
    assert_eq!(parse_yaml_executable(vec![]).err(), Some(FormatError::WrongRootShape));
    assert_eq!(
        parse_yaml_executable(vec![Node::Array(vec![])]).err(),
        Some(FormatError::WrongRootShape)
    );
    assert_eq!(
        parse_yaml_executable(vec![Node::Array(vec![]), Node::Hash(vec![])]).err(),
        Some(FormatError::WrongRootShape)
    );
}

#[test]
fn first_fault_of_the_code_is_reported() {
    assert_eq!(
        parse_yaml_opcode(Node::Array(vec![s("wait"), one("jump", n(-1)), s("bogus")])),
        Err(FormatError::NegativeAddress)
    );
    assert_eq!(
        parse_yaml_opcode(Node::Array(vec![s("bogus"), one("jump", n(-1))])),
        Err(FormatError::UnknownTag)
    );
    assert_eq!(
        parse_yaml_executable(vec![Node::Array(vec![]), Node::Array(vec![s("bogus")])]).err(),
        Some(FormatError::UnknownTag)
    );
}

#[test]
fn executable_is_read_from_the_last_two_blocks() {
    let exe = parse_yaml_executable(vec![
        s("leading block"),
        Node::Hash(vec![(s("main"), n(1))]),
        Node::Array(vec![s("wait"), s("return")]),
    ])
    .unwrap();
    assert_eq!(exe.opcodes, vec![Instruction::Wait, Instruction::Ret]);
    assert_eq!(listed(&exe.entry_points), vec![("main".to_string(), 1)]);
}

#[test]
fn repeated_entry_keeps_its_later_address() {
    let table = parse_yaml_entry_table(Node::Hash(vec![
        (s("a"), n(1)),
        (s("b"), n(2)),
        (s("a"), n(3)),
    ]))
    .unwrap();
    assert_eq!(listed(&table), vec![("b".to_string(), 2), ("a".to_string(), 3)]);
}

#[test]
fn largest_address_of_a_document_is_read() {
    if usize::MAX as u128 >= i64::MAX as u128 {
        assert_eq!(
            parse_yaml_opcode_impl(one("jump", n(i64::MAX))),
            Ok(Instruction::Jmp(i64::MAX as usize))
        );
    } else {
        assert_eq!(
            parse_yaml_opcode_impl(one("jump", n(i64::MAX))),
            Err(FormatError::AddressTooLarge)
        );
    }
}

#[test]
fn script_is_read_from_a_mapping() {
    let document = Node::Hash(vec![
        (
            s("main"),
            Node::Array(vec![
                one("print", s("hi")),
                s(" wait "),
                one(" call", s("helper")),
                one(
                    "choose",
                    Node::Array(vec![
                        one("a", Node::Array(vec![one("print", s("A"))])),
                        one("b", Node::Array(vec![])),
                    ]),
                ),
            ]),
        ),
        (s("helper"), Node::Array(vec![])),
    ]);
    let procs = procs_of(parse_yaml(document).unwrap());
    assert_eq!(
        procs,
        vec![
            (
                "main".to_string(),
                vec![
                    Ast::Msg("hi".to_string()),
                    Ast::Wait,
                    Ast::Call("helper".to_string()),
                    Ast::Choice(vec![
                        ("a".to_string(), vec![Ast::Msg("A".to_string())]),
                        ("b".to_string(), vec![]),
                    ]),
                ]
            ),
            ("helper".to_string(), vec![]),
        ]
    );
}

#[test]
fn faulty_scripts_are_refused() {
    let in_main = |command: Node| Node::Hash(vec![(s("main"), Node::Array(vec![command]))]);
    assert_eq!(parse_yaml(s("main")).err(), Some(FormatError::WrongRootShape));
    assert_eq!(parse_yaml(Node::Array(vec![])).err(), Some(FormatError::WrongRootShape));
    assert_eq!(
        parse_yaml(Node::Hash(vec![(s("main"), s("wait"))])).err(),
        Some(FormatError::Malformed)
    );
    assert_eq!(
        parse_yaml(Node::Hash(vec![(n(1), Node::Array(vec![]))])).err(),
        Some(FormatError::Malformed)
    );
    assert_eq!(parse_yaml(in_main(s("return"))).err(), Some(FormatError::UnknownTag));
    assert_eq!(parse_yaml(in_main(one("jump", n(1)))).err(), Some(FormatError::UnknownTag));
    assert_eq!(parse_yaml(in_main(n(1))).err(), Some(FormatError::Malformed));
    assert_eq!(parse_yaml(in_main(one("print", n(1)))).err(), Some(FormatError::Malformed));
    assert_eq!(parse_yaml(in_main(one("call", n(1)))).err(), Some(FormatError::Malformed));
    assert_eq!(parse_yaml(in_main(one("choose", s("a")))).err(), Some(FormatError::Malformed));
    assert_eq!(parse_yaml(in_main(Node::Hash(vec![]))).err(), Some(FormatError::WrongKeyArity));
    assert_eq!(
        parse_yaml(in_main(one("choose", Node::Array(vec![Node::Hash(vec![])])))).err(),
        Some(FormatError::WrongKeyArity)
    );
    assert_eq!(
        parse_yaml(in_main(one("choose", Node::Array(vec![one("a", s("x"))])))).err(),
        Some(FormatError::Malformed)
    );
    assert_eq!(
        parse_yaml(in_main(one(
            "choose",
            Node::Array(vec![one("a", Node::Array(vec![s("bogus")]))])
        )))
        .err(),
        Some(FormatError::UnknownTag)
    );
}

#[test]
fn first_fault_of_a_script_is_reported() {
    let document = Node::Hash(vec![
        (s("good"), Node::Array(vec![s("wait")])),
        (s("bad"), Node::Array(vec![s("wait"), Node::Hash(vec![]), s("bogus")])),
        (n(3), s("worse")),
    ]);
    assert_eq!(parse_yaml(document).err(), Some(FormatError::WrongKeyArity));
}

#[test]
fn repeated_procedure_keeps_its_later_commands() {
    let document = Node::Hash(vec![
        (s("a"), Node::Array(vec![s("wait")])),
        (s("b"), Node::Array(vec![])),
        (s("a"), Node::Array(vec![one("print", s("again"))])),
    ]);
    assert_eq!(
        procs_of(parse_yaml(document).unwrap()),
        vec![
            ("b".to_string(), vec![]),
            ("a".to_string(), vec![Ast::Msg("again".to_string())]),
        ]
    );
}
