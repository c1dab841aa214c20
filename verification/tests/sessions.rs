use dialogue_engine::document::Node;
use dialogue_engine::linker::{try_link, Executable, LinkError};
use dialogue_engine::opcode_loader::parse_yaml_executable;
use dialogue_engine::opcode_saver::try_executable_into_yaml;
use dialogue_engine::parser::{parse_yaml, Ast, File};
use dialogue_engine::translator::{translate_file, ObjectFiles, PreInstruction};
use dialogue_engine::vm::{Instruction, Program, ProgramState, Request};
use linked_hash_map::LinkedHashMap;

fn story() -> File {
    let mut procs = LinkedHashMap::new();
    procs.insert(
        "main".to_string(),
        vec![
            Ast::Msg("start".to_string()),
            Ast::Choice(vec![
                (
                    "in".to_string(),
                    vec![
                        Ast::Call("room".to_string()),
                        Ast::Choice(vec![
                            ("stay".to_string(), vec![Ast::Wait]),
                            ("leave".to_string(), vec![]),
                        ]),
                    ],
                ),
                ("out".to_string(), vec![Ast::Msg("bye".to_string())]),
                ("around".to_string(), vec![Ast::Call("room".to_string()), Ast::Wait]),
            ]),
            Ast::Call("end".to_string()),
        ],
    );
    procs.insert(
        "room".to_string(),
        vec![Ast::Msg("a room".to_string()), Ast::Call("end".to_string())],
    );
    procs.insert("end".to_string(), vec![]);
    File { procs }
}

/// Follows every sequence of choices of a session and counts the sessions
/// that end.
fn explore(program: &Program, picks: &mut Vec<usize>, ended: &mut usize) {
    let mut engine = program.run();
    let mut request = engine.unpause(None);
    let mut taken = 0;
    loop {
        match request {
            Ok(Request::Drop) => {
                assert_eq!(engine.state(), ProgramState::Terminated);
                *ended += 1;
                return;
            }
            Ok(Request::Resume) | Ok(Request::PrintMessage(_)) => {
                request = engine.unpause(Some(1000));
            }
            Ok(Request::Wait) => {
                request = engine.done_printing(Some(1000));
            }
            Ok(Request::PerformChoice(options)) => {
                if taken < picks.len() {
                    taken += 1;
                    request = engine.select(picks[taken - 1], None);
                } else {
                    for option in 0..options.len() {
                        picks.push(option);
                        explore(program, picks, ended);
                        picks.pop();
                    }
                    return;
                }
            }
            Err(error) => panic!("a compiled script failed with {:?} after {:?}", error, picks),
        }
    }
}

#[test]
fn compiled_script_never_faults() {
    let exe = try_link(translate_file(story())).unwrap().unwrap();
    let entries: Vec<usize> = exe.entry_points.values().copied().collect();
    assert_eq!(entries, vec![0, 18, 22]);
    let program_code = exe.opcodes;
    for entry in entries {
        let program = Program::new(program_code.clone(), entry);
        let mut ended = 0;
        explore(&program, &mut Vec::new(), &mut ended);
        if entry == 0 {
            assert_eq!(ended, 4);
        } else {
            assert_eq!(ended, 1);
        }
    }
}

#[test]
fn compiled_script_survives_writing_and_reading() {
    let exe = try_link(translate_file(story())).unwrap().unwrap();
    let written = try_executable_into_yaml(&exe).unwrap();
    let read = parse_yaml_executable(written).unwrap();
    assert_eq!(read.opcodes, exe.opcodes);
    let names = |exe: &Executable| -> Vec<(String, usize)> {
        exe.entry_points.iter().map(|(name, address)| (name.clone(), *address)).collect()
    };
    assert_eq!(names(&read), names(&exe));
}

#[test]
fn document_is_compiled_and_run() {
    let text = |words: &str| Node::String(words.to_string());
    let one = |key: &str, value: Node| Node::Hash(vec![(Node::String(key.to_string()), value)]);
    let document = Node::Hash(vec![
        (text("main"), Node::Array(vec![one("call", text("helper")), text("wait")])),
        (text("helper"), Node::Array(vec![one("print", text("hello"))])),
    ]);
    let exe = try_link(translate_file(parse_yaml(document).unwrap())).unwrap().unwrap();
    let program = Program::new(exe.opcodes, exe.entry_points["main"]);
    let mut engine = program.run();
    assert_eq!(engine.unpause(None), Ok(Request::PrintMessage("hello")));
    assert_eq!(engine.unpause(None), Ok(Request::Wait));
    assert_eq!(engine.done_printing(None), Ok(Request::Drop));
}

#[test]
fn layout_beyond_the_machine_is_not_linked() {
    let mut objects = LinkedHashMap::new();
    objects.insert("pad".to_string(), vec![PreInstruction::Ret]);
    objects.insert("far".to_string(), vec![PreInstruction::Jmp(usize::MAX), PreInstruction::Ret]);
    assert!(try_link(ObjectFiles { objects }).is_none());

    let mut reachable = LinkedHashMap::new();
    reachable.insert("far".to_string(), vec![PreInstruction::Jmp(usize::MAX)]);
    match try_link(ObjectFiles { objects: reachable }) {
        Some(Ok(exe)) => assert_eq!(exe.opcodes, vec![Instruction::Jmp(usize::MAX)]),
        _ => panic!("a layout that fits was refused"),
    }

    let mut dangling = LinkedHashMap::new();
    dangling.insert("a".to_string(), vec![PreInstruction::UnresolvedCall("b".to_string())]);
    match try_link(ObjectFiles { objects: dangling }) {
        Some(Err(error)) => assert_eq!(error, LinkError::UnknownProcedure("b".to_string())),
        _ => panic!("a dangling call was not reported"),
    }
}

#[test]
fn address_beyond_a_document_is_not_written() {
    let small = Executable {
        entry_points: LinkedHashMap::new(),
        opcodes: vec![Instruction::Jmp(i64::MAX as usize)],
    };
    assert!(try_executable_into_yaml(&small).is_some());
    if usize::MAX as u128 > i64::MAX as u128 {
        let beyond = i64::MAX as usize + 1;
        let code = Executable {
            entry_points: LinkedHashMap::new(),
            opcodes: vec![Instruction::Ret, Instruction::PushPtr(beyond)],
        };
        assert!(try_executable_into_yaml(&code).is_none());
        let mut entry_points = LinkedHashMap::new();
        entry_points.insert("main".to_string(), beyond);
        let table = Executable { entry_points, opcodes: vec![] };
        assert!(try_executable_into_yaml(&table).is_none());
    }
}
