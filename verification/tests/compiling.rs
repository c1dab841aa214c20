use dialogue_engine::linker::{link, Executable, LinkError};
use dialogue_engine::parser::{Ast, File};
use dialogue_engine::translator::{
    translate_ast, translate_file, BranchPreLeaf, ObjectFiles, PreInstruction,
};
use dialogue_engine::vm::{BranchLeaf, Instruction};
use linked_hash_map::LinkedHashMap;

fn say(words: &str) -> Ast {
    Ast::Msg(words.to_string())
}

fn call(name: &str) -> Ast {
    Ast::Call(name.to_string())
}

fn branch(label: &str, code: Vec<Ast>) -> (String, Vec<Ast>) {
    (label.to_string(), code)
}

fn pre_leaf(name: &str, address: usize) -> BranchPreLeaf {
    BranchPreLeaf { option_name: name.to_string(), jmp_address: address }
}

fn file_of(procs: Vec<(&str, Vec<Ast>)>) -> File {
    let mut table = LinkedHashMap::new();
    for (name, commands) in procs {
        table.insert(name.to_string(), commands);
    }
    File { procs: table }
}

fn objects_of(objects: Vec<(&str, Vec<PreInstruction>)>) -> ObjectFiles {
    let mut table = LinkedHashMap::new();
    for (name, code) in objects {
        table.insert(name.to_string(), code);
    }
    ObjectFiles { objects: table }
}

fn entries(exe: &Executable) -> Vec<(String, usize)> {
    exe.entry_points.iter().map(|(name, address)| (name.clone(), *address)).collect()
}

#[test]
fn simple_commands_lower_one_to_one() {
    assert_eq!(
        translate_ast(vec![say("a"), Ast::Wait, say("b")]),
        vec![
            PreInstruction::Msg("a".to_string()),
            PreInstruction::Wait,
            PreInstruction::Msg("b".to_string()),
            PreInstruction::Ret,
        ]
    );
}

#[test]
fn call_pushes_the_address_behind_itself() {
    assert_eq!(
        translate_ast(vec![say("a"), call("f"), say("b")]),
        vec![
            PreInstruction::Msg("a".to_string()),
            PreInstruction::PushPtr(3),
            PreInstruction::UnresolvedCall("f".to_string()),
            PreInstruction::Msg("b".to_string()),
            PreInstruction::Ret,
        ]
    );
}

#[test]
fn choice_joins_behind_its_last_branch() {
    let code = translate_ast(vec![
        say("before"),
        Ast::Choice(vec![
            branch("x", vec![say("1"), say("2")]),
            branch("y", vec![]),
            branch("z", vec![Ast::Wait]),
        ]),
        say("after"),
    ]);
    assert_eq!(
        code,
        vec![
            PreInstruction::Msg("before".to_string()),
            PreInstruction::Branch(vec![pre_leaf("x", 2), pre_leaf("y", 5), pre_leaf("z", 6)]),
            PreInstruction::Msg("1".to_string()),
            PreInstruction::Msg("2".to_string()),
            PreInstruction::Jmp(8),
            PreInstruction::Jmp(8),
            PreInstruction::Wait,
            PreInstruction::Jmp(8),
            PreInstruction::Msg("after".to_string()),
            PreInstruction::Ret,
        ]
    );
    let jumps = code.iter().filter(|i| **i == PreInstruction::Jmp(8)).count();
    assert_eq!(jumps, 3);
}

#[test]
fn choice_without_branches_is_a_bare_branch() {
    assert_eq!(
        translate_ast(vec![Ast::Choice(vec![])]),
        vec![PreInstruction::Branch(vec![]), PreInstruction::Ret]
    );
}

#[test]
fn nested_choice_joins_inside_its_branch() {
    let code = translate_ast(vec![Ast::Choice(vec![
        branch("outer", vec![Ast::Choice(vec![branch("inner", vec![call("f")])])]),
        branch("other", vec![say("o")]),
    ])]);
    assert_eq!(
        code,
        vec![
            PreInstruction::Branch(vec![pre_leaf("outer", 1), pre_leaf("other", 6)]),
            PreInstruction::Branch(vec![pre_leaf("inner", 2)]),
            PreInstruction::PushPtr(4),
            PreInstruction::UnresolvedCall("f".to_string()),
            PreInstruction::Jmp(5),
            PreInstruction::Jmp(8),
            PreInstruction::Msg("o".to_string()),
            PreInstruction::Jmp(8),
            PreInstruction::Ret,
        ]
    );
}

#[test]
fn generated_code_has_one_return_at_its_end() {
    let scripts = vec![
        vec![],
        vec![say("a")],
        vec![call("f"), Ast::Wait],
        vec![Ast::Choice(vec![branch("a", vec![]), branch("b", vec![call("g")])])],
    ];
    for commands in scripts {
        let code = translate_ast(commands);
        let returns: Vec<usize> = code
            .iter()
            .enumerate()
            .filter(|(_, i)| **i == PreInstruction::Ret)
            .map(|(p, _)| p)
            .collect();
        assert_eq!(returns, vec![code.len() - 1]);
    }
}

#[test]
fn objects_keep_the_order_of_the_procedures() {
    let objects = translate_file(file_of(vec![
        ("zeta", vec![say("z")]),
        ("alpha", vec![]),
        ("mid", vec![Ast::Wait]),
    ]));
    let listed: Vec<(String, Vec<PreInstruction>)> = objects.objects.into_iter().collect();
    assert_eq!(
        listed,
        vec![
            ("zeta".to_string(), vec![PreInstruction::Msg("z".to_string()), PreInstruction::Ret]),
            ("alpha".to_string(), vec![PreInstruction::Ret]),
            ("mid".to_string(), vec![PreInstruction::Wait, PreInstruction::Ret]),
        ]
    );
}

#[test]
fn layout_follows_the_order_of_the_objects() {
    let a = vec![PreInstruction::Wait, PreInstruction::Wait, PreInstruction::Ret];
    let b = vec![PreInstruction::Ret];
    let forward = link(objects_of(vec![("A", a.clone()), ("B", b.clone())])).unwrap();
    assert_eq!(entries(&forward), vec![("A".to_string(), 0), ("B".to_string(), 3)]);
    assert_eq!(
        forward.opcodes,
        vec![Instruction::Wait, Instruction::Wait, Instruction::Ret, Instruction::Ret]
    );
    let backward = link(objects_of(vec![("B", b), ("A", a)])).unwrap();
    assert_eq!(entries(&backward), vec![("B".to_string(), 0), ("A".to_string(), 1)]);
    assert_eq!(
        backward.opcodes,
        vec![Instruction::Ret, Instruction::Wait, Instruction::Wait, Instruction::Ret]
    );
}

#[test]
fn linking_moves_every_local_address() {
    let first = vec![PreInstruction::Msg("pad".to_string()), PreInstruction::Ret];
    let second = vec![
        PreInstruction::Branch(vec![pre_leaf("a", 1), pre_leaf("b", 3)]),
        PreInstruction::PushPtr(3),
        PreInstruction::UnresolvedCall("first".to_string()),
        PreInstruction::Jmp(4),
        PreInstruction::UnresolvedCall("second".to_string()),
        PreInstruction::Ret,
    ];
    let exe = link(objects_of(vec![("first", first), ("second", second)])).unwrap();
    assert_eq!(
        exe.opcodes,
        vec![
            Instruction::Msg("pad".to_string()),
            Instruction::Ret,
            Instruction::Branch(vec![
                BranchLeaf { option_name: "a".to_string(), jmp_address: 3 },
                BranchLeaf { option_name: "b".to_string(), jmp_address: 5 },
            ]),
            Instruction::PushPtr(5),
            Instruction::Jmp(0),
            Instruction::Jmp(6),
            Instruction::Jmp(2),
            Instruction::Ret,
        ]
    );
    assert_eq!(exe.entry_address("first"), Some(0));
    assert_eq!(exe.entry_address("second"), Some(2));
    assert_eq!(exe.entry_address("third"), None);
}

#[test]
fn call_may_name_a_later_procedure() {
    let exe = link(translate_file(file_of(vec![
        ("one", vec![call("two")]),
        ("two", vec![call("one")]),
    ])))
    .unwrap();
    assert_eq!(
        exe.opcodes,
        vec![
            Instruction::PushPtr(2),
            Instruction::Jmp(3),
            Instruction::Ret,
            Instruction::PushPtr(5),
            Instruction::Jmp(0),
            Instruction::Ret,
        ]
    );
}

#[test]
fn first_unknown_name_in_layout_order_is_reported() {
    let objects = objects_of(vec![
        ("a", vec![PreInstruction::UnresolvedCall("b".to_string()), PreInstruction::Ret]),
        (
            "b",
            vec![
                PreInstruction::UnresolvedCall("late".to_string()),
                PreInstruction::UnresolvedCall("later".to_string()),
                PreInstruction::Ret,
            ],
        ),
        ("c", vec![PreInstruction::UnresolvedCall("last".to_string())]),
    ]);
    match link(objects) {
        Err(error) => assert_eq!(error, LinkError::UnknownProcedure("late".to_string())),
        Ok(_) => panic!("a dangling call was linked"),
    }
}

#[test]
fn empty_script_links_to_an_empty_executable() {
    let exe = link(translate_file(file_of(vec![]))).unwrap();
    assert!(exe.opcodes.is_empty());
    assert!(exe.entry_points.is_empty());
}
