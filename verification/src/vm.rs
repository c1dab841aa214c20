//! The execution engine: a resumable stack machine over a flat instruction
//! sequence. The engine never blocks; whenever it needs the host it stops
//! and hands back a [`Request`], and the host answers with the one
//! operation that fits the engine's state.
//!
//! Everything the engine does is stated against a small mathematical model:
//! [`step`] says what one instruction does to a [`Position`], and [`run`]
//! iterates it under a budget of steps.

use vstd::prelude::*;

verus! {

/// One option of a branch instruction.
#[derive(Debug, Clone, PartialEq, Eq)]
pub struct BranchLeaf {
    /// The text shown to the user for this option.
    pub option_name: String,
    /// The address at which execution goes on when the option is picked.
    pub jmp_address: usize,
}

/// What a [`BranchLeaf`] stands for in contracts.
pub struct LeafView {
    pub name: Seq<char>,
    pub target: nat,
}

impl View for BranchLeaf {
    type V = LeafView;

    open spec fn view(&self) -> LeafView {
        LeafView { name: self.option_name@, target: self.jmp_address as nat }
    }
}

/// The views of a run of leaves, in order.
pub open spec fn leaves_view(leaves: Seq<BranchLeaf>) -> Seq<LeafView> {
    leaves.map_values(|leaf: BranchLeaf| leaf@)
}

/// An instruction of a linked program. Addresses are positions in the
/// program's instruction sequence, counted from zero.
#[derive(Debug, Clone, PartialEq, Eq)]
pub enum Instruction {
    /// Jump to the address on top of the frame stack and pop it; with an
    /// empty stack the program ends.
    Ret,
    /// Unconditional jump.
    Jmp(usize),
    /// Ask the host to show a message.
    Msg(String),
    /// Ask the host to wait for the user's acknowledgement.
    Wait,
    /// Ask the host to pick one of the options.
    Branch(Vec<BranchLeaf>),
    /// Push an address onto the frame stack.
    PushPtr(usize),
}

/// What an [`Instruction`] stands for in contracts.
pub enum InstructionView {
    Ret,
    Jmp(nat),
    Msg(Seq<char>),
    Wait,
    Branch(Seq<LeafView>),
    PushPtr(nat),
}

impl View for Instruction {
    type V = InstructionView;

    open spec fn view(&self) -> InstructionView {
        match self {
            Instruction::Ret => InstructionView::Ret,
            Instruction::Jmp(x) => InstructionView::Jmp(*x as nat),
            Instruction::Msg(text) => InstructionView::Msg(text@),
            Instruction::Wait => InstructionView::Wait,
            Instruction::Branch(leaves) => InstructionView::Branch(leaves_view(leaves@)),
            Instruction::PushPtr(x) => InstructionView::PushPtr(*x as nat),
        }
    }
}

/// Whether every leaf targets an address that is at most `bound`.
pub open spec fn leaves_within(leaves: Seq<LeafView>, bound: int) -> bool {
    forall|k: int| 0 <= k < leaves.len() ==> (#[trigger] leaves[k]).target <= bound
}

/// The views of a run of instructions, in order.
pub open spec fn code_view(code: Seq<Instruction>) -> Seq<InstructionView> {
    code.map_values(|instruction: Instruction| instruction@)
}

/// The frame stack as a sequence of addresses, the top last.
pub open spec fn frames_view(frames: Seq<usize>) -> Seq<nat> {
    frames.map_values(|address: usize| address as nat)
}

/// The run state of an engine.
#[derive(Debug, Clone, Copy, PartialEq, Eq, Structural)]
pub enum ProgramState {
    /// Stopped at a `Wait` request; the host answers with `done_printing`.
    Waiting,
    /// Stopped at a `PerformChoice` request; the host answers with `select`.
    WaitingForChoice,
    /// Stopped for any other reason; the host answers with `unpause`.
    Paused,
    /// The session is over.
    Terminated,
}

/// Why an operation of the engine failed.
#[derive(Debug, Clone, Copy, PartialEq, Eq, Structural)]
pub enum VmError {
    /// The operation does not fit the engine's state.
    InvalidStateTransition,
    /// The chosen option does not exist in the branch instruction.
    ChoiceOutOfRange,
    /// A jump instruction targets its own address.
    SelfJump,
    /// The instruction pointer left the instruction sequence.
    AddressOutOfRange,
}

/// What the engine wants the host to do.
#[derive(Debug, PartialEq, Eq)]
pub enum Request<'a> {
    /// The session has ended; nothing more is expected.
    Drop,
    /// The step budget ran out; answer with `unpause`.
    Resume,
    /// Show the message, then answer with `unpause`.
    PrintMessage(&'a str),
    /// Wait for the user, then answer with `done_printing`.
    Wait,
    /// Let the user pick an option, then answer with `select`.
    PerformChoice(&'a [BranchLeaf]),
}

/// What a [`Request`] stands for in contracts.
pub enum RequestView {
    Drop,
    Resume,
    PrintMessage(Seq<char>),
    Wait,
    PerformChoice(Seq<LeafView>),
}

impl<'a> View for Request<'a> {
    type V = RequestView;

    open spec fn view(&self) -> RequestView {
        match self {
            Request::Drop => RequestView::Drop,
            Request::Resume => RequestView::Resume,
            Request::PrintMessage(text) => RequestView::PrintMessage(text@),
            Request::Wait => RequestView::Wait,
            Request::PerformChoice(leaves) => RequestView::PerformChoice(leaves_view(leaves@)),
        }
    }
}

/// The view of what an operation hands back.
pub open spec fn outcome_view(outcome: Result<Request<'_>, VmError>) -> Result<
    RequestView,
    VmError,
> {
    match outcome {
        Ok(request) => Ok(request@),
        Err(error) => Err(error),
    }
}

/// Where a machine stands: its instruction pointer and its frame stack,
/// the top of the stack last.
pub struct Position {
    pub ip: nat,
    pub frames: Seq<nat>,
}

/// What executing one instruction leads to.
pub enum Step {
    /// Execution goes on at the position.
    Continue(Position),
    /// Execution stops with a request, and would go on at the position.
    Yield(RequestView, Position),
    /// The program is corrupt.
    Fault(VmError),
}

/// The effect of the instruction under the pointer.
pub open spec fn step(code: Seq<InstructionView>, at: Position) -> Step {
    if at.ip >= code.len() {
        Step::Fault(VmError::AddressOutOfRange)
    } else {
        match code[at.ip as int] {
            InstructionView::Ret => if at.frames.len() > 0 {
                Step::Continue(Position { ip: at.frames.last(), frames: at.frames.drop_last() })
            } else {
                Step::Yield(RequestView::Drop, at)
            },
            InstructionView::Jmp(target) => if target == at.ip {
                Step::Fault(VmError::SelfJump)
            } else {
                Step::Continue(Position { ip: target, frames: at.frames })
            },
            InstructionView::Msg(text) => Step::Yield(
                RequestView::PrintMessage(text),
                Position { ip: at.ip + 1, frames: at.frames },
            ),
            InstructionView::Wait => Step::Yield(
                RequestView::Wait,
                Position { ip: at.ip + 1, frames: at.frames },
            ),
            InstructionView::Branch(options) => Step::Yield(RequestView::PerformChoice(options), at),
            InstructionView::PushPtr(address) => Step::Continue(
                Position { ip: at.ip + 1, frames: at.frames.push(address) },
            ),
        }
    }
}

/// How a run of the fetch-execute loop ends.
pub struct Run {
    /// Where the machine stands afterwards.
    pub end: Position,
    /// The request that concludes the run, or the fault that stopped it.
    pub result: Result<RequestView, VmError>,
}

/// The fetch-execute loop: execute instructions from `at` until one of them
/// yields a request or faults, or until `fuel` instructions were executed
/// without either, in which case the run concludes with `Resume`.
///
/// A fault leaves the machine at the instruction that caused it.
pub open spec fn run(code: Seq<InstructionView>, at: Position, fuel: nat) -> Run
    decreases fuel,
{
    if fuel == 0 {
        Run { end: at, result: Ok(RequestView::Resume) }
    } else {
        match step(code, at) {
            Step::Continue(next) => run(code, next, (fuel - 1) as nat),
            Step::Yield(request, next) => Run { end: next, result: Ok(request) },
            Step::Fault(error) => Run { end: at, result: Err(error) },
        }
    }
}

/// The state an engine is in once a run has ended with `result`: the one
/// that the concluding request asks the host to answer in. A fault that
/// the run itself met ends the session.
pub open spec fn state_after(result: Result<RequestView, VmError>) -> ProgramState {
    match result {
        Ok(RequestView::Drop) => ProgramState::Terminated,
        Ok(RequestView::Resume) => ProgramState::Paused,
        Ok(RequestView::PrintMessage(_)) => ProgramState::Paused,
        Ok(RequestView::Wait) => ProgramState::Waiting,
        Ok(RequestView::PerformChoice(_)) => ProgramState::WaitingForChoice,
        Err(_) => ProgramState::Terminated,
    }
}

/// The number of steps a run may take: the limit given, or, without one,
/// as many as the machine can count.
pub open spec fn budget(limit: Option<usize>) -> nat {
    match limit {
        Some(steps) => steps as nat,
        None => usize::MAX as nat,
    }
}

/// The address that picking option `option` leads to, when the instruction
/// at `ip` is a branch that has such an option.
pub open spec fn chosen_target(code: Seq<InstructionView>, ip: nat, option: nat) -> Option<nat> {
    if ip < code.len() {
        match code[ip as int] {
            InstructionView::Branch(options) => if option < options.len() {
                Some(options[option as int].target)
            } else {
                None
            },
            _ => None,
        }
    } else {
        None
    }
}

/// What a program and its entry point stand for in contracts.
pub struct ProgramView {
    pub code: Seq<InstructionView>,
    pub entry: nat,
}

/// A linked instruction sequence together with the address at which
/// execution starts.
pub struct Program {
    entry_point: usize,
    opcodes: Vec<Instruction>,
}

impl View for Program {
    type V = ProgramView;

    closed spec fn view(&self) -> ProgramView {
        ProgramView { code: code_view(self.opcodes@), entry: self.entry_point as nat }
    }
}

/// What an engine stands for in contracts: the code it runs, where it
/// stands in it, and its run state.
pub struct EngineView {
    pub code: Seq<InstructionView>,
    pub at: Position,
    pub state: ProgramState,
}

/// One execution of a program.
pub struct ProgramExecutor<'a> {
    my_program: &'a Program,
    instruction_ptr: usize,
    frame_stack: Vec<usize>,
    state: ProgramState,
}

impl<'a> View for ProgramExecutor<'a> {
    type V = EngineView;

    closed spec fn view(&self) -> EngineView {
        EngineView {
            code: self.my_program@.code,
            at: Position {
                ip: self.instruction_ptr as nat,
                frames: frames_view(self.frame_stack@),
            },
            state: self.state,
        }
    }
}

impl Program {
    /// A program that starts at `entry_point`. Any address is accepted; one
    /// outside the instruction sequence makes the first fetch fail.
    pub fn new(opcodes: Vec<Instruction>, entry_point: usize) -> (program: Program)
        ensures
            program@ == (ProgramView { code: code_view(opcodes@), entry: entry_point as nat }),
    {
        Program { opcodes, entry_point }
    }

    /// A fresh engine for this program: paused at the entry point, with an
    /// empty frame stack.
    pub fn run(&self) -> (engine: ProgramExecutor<'_>)
        ensures
            engine@ == (EngineView {
                code: self@.code,
                at: Position { ip: self@.entry, frames: Seq::empty() },
                state: ProgramState::Paused,
            }),
    {
        let engine = ProgramExecutor {
            my_program: self,
            instruction_ptr: self.entry_point,
            frame_stack: Vec::new(),
            state: ProgramState::Paused,
        };
        assert(frames_view(engine.frame_stack@) =~= Seq::empty());
        engine
    }
}

impl<'a> ProgramExecutor<'a> {
    /// While the engine waits for a choice, its pointer rests on the branch
    /// instruction that offered it.
    #[verifier::type_invariant]
    spec fn rests_on_branch(self) -> bool {
        self.state == ProgramState::WaitingForChoice ==> {
            &&& self.instruction_ptr < self.my_program.opcodes.len()
            &&& self.my_program.opcodes[self.instruction_ptr as int] is Branch
        }
    }

    /// The engine's run state.
    pub fn state(&self) -> (state: ProgramState)
        ensures
            state == self@.state,
    {
        self.state
    }

    /// The address of the instruction that is executed next.
    pub fn instruction_ptr(&self) -> (address: usize)
        ensures
            address == self@.at.ip,
    {
        self.instruction_ptr
    }

    /// The fetch-execute loop shared by the three operations.
    fn execute(&mut self, limit: Option<usize>) -> (outcome: Result<Request<'a>, VmError>)
        requires
            old(self).state == ProgramState::Paused || old(self).state == ProgramState::Waiting,
        ensures
            final(self)@.code == old(self)@.code,
            final(self)@.at == run(old(self)@.code, old(self)@.at, budget(limit)).end,
            outcome_view(outcome) == run(old(self)@.code, old(self)@.at, budget(limit)).result,
            final(self)@.state == state_after(outcome_view(outcome)),
    {
        let program: &'a Program = self.my_program;
        let mut limit: usize = match limit {
            Some(steps) => steps,
            None => usize::MAX,
        };
        let mut instruction_ptr: usize = self.instruction_ptr;
        let mut outcome: Option<Result<Request<'a>, VmError>> = None;
        let mut frames: Vec<usize> = Vec::new();
        core::mem::swap(&mut self.frame_stack, &mut frames);
        let ghost code = program@.code;
        let ghost whole = run(code, old(self)@.at, limit as nat);

        while limit > 0 && outcome.is_none()
            invariant
                code == code_view(program.opcodes@),
                outcome is None ==> whole == run(
                    code,
                    Position { ip: instruction_ptr as nat, frames: frames_view(frames@) },
                    limit as nat,
                ),
                outcome matches Some(reached) ==> {
                    &&& whole.end == Position {
                        ip: instruction_ptr as nat,
                        frames: frames_view(frames@),
                    }
                    &&& whole.result == outcome_view(reached)
                    &&& reached matches Ok(Request::PerformChoice(_)) ==> {
                        &&& instruction_ptr < program.opcodes.len()
                        &&& program.opcodes[instruction_ptr as int] is Branch
                    }
                },
            decreases limit,
        {
            let ghost at = Position { ip: instruction_ptr as nat, frames: frames_view(frames@) };
            if instruction_ptr < program.opcodes.len() {
                match &program.opcodes[instruction_ptr] {
                    Instruction::Ret => {
                        match frames.pop() {
                            Some(address) => {
                                assert(frames_view(frames@) =~= at.frames.drop_last());
                                instruction_ptr = address;
                            },
                            None => {
                                outcome = Some(Ok(Request::Drop));
                            },
                        }
                    },
                    Instruction::Jmp(target) => {
                        if *target == instruction_ptr {
                            outcome = Some(Err(VmError::SelfJump));
                        } else {
                            instruction_ptr = *target;
                        }
                    },
                    Instruction::Msg(text) => {
                        outcome = Some(Ok(Request::PrintMessage(text.as_str())));
                        instruction_ptr += 1;
                    },
                    Instruction::Wait => {
                        outcome = Some(Ok(Request::Wait));
                        instruction_ptr += 1;
                    },
                    Instruction::Branch(options) => {
                        outcome = Some(Ok(Request::PerformChoice(options.as_slice())));
                    },
                    Instruction::PushPtr(address) => {
                        frames.push(*address);
                        assert(frames_view(frames@) =~= at.frames.push(*address as nat));
                        instruction_ptr += 1;
                    },
                }
            } else {
                outcome = Some(Err(VmError::AddressOutOfRange));
            }
            limit -= 1;
        }

        core::mem::swap(&mut self.frame_stack, &mut frames);
        self.instruction_ptr = instruction_ptr;
        match outcome {
            None => {
                self.state = ProgramState::Paused;
                Ok(Request::Resume)
            },
            Some(Ok(request)) => {
                match request {
                    Request::Drop => {
                        self.state = ProgramState::Terminated;
                    },
                    Request::Resume => {
                        self.state = ProgramState::Paused;
                    },
                    Request::PrintMessage(_) => {
                        self.state = ProgramState::Paused;
                    },
                    Request::Wait => {
                        self.state = ProgramState::Waiting;
                    },
                    Request::PerformChoice(_) => {
                        self.state = ProgramState::WaitingForChoice;
                    },
                }
                Ok(request)
            },
            Some(Err(error)) => {
                self.state = ProgramState::Terminated;
                Err(error)
            },
        }
    }

    /// Answers a `Resume` or `PrintMessage` request: runs the loop from
    /// where the engine stands.
    ///
    /// Fails with `InvalidStateTransition`, and changes nothing, unless the
    /// engine is paused.
    pub fn unpause(&mut self, limit: Option<usize>) -> (outcome: Result<Request<'a>, VmError>)
        ensures
            final(self)@.code == old(self)@.code,
            old(self)@.state != ProgramState::Paused ==> {
                &&& outcome == Err::<Request<'a>, VmError>(VmError::InvalidStateTransition)
                &&& final(self)@ == old(self)@
            },
            old(self)@.state == ProgramState::Paused ==> {
                let run = run(old(self)@.code, old(self)@.at, budget(limit));
                &&& outcome_view(outcome) == run.result
                &&& final(self)@.at == run.end
                &&& final(self)@.state == state_after(run.result)
            },
    {
        match self.state {
            ProgramState::Paused => self.execute(limit),
            _ => Err(VmError::InvalidStateTransition),
        }
    }

    /// Answers a `Wait` request: runs the loop from the instruction after
    /// the one that made the engine wait.
    ///
    /// Fails with `InvalidStateTransition`, and changes nothing, unless the
    /// engine is waiting.
    pub fn done_printing(&mut self, limit: Option<usize>) -> (outcome: Result<
        Request<'a>,
        VmError,
    >)
        ensures
            final(self)@.code == old(self)@.code,
            old(self)@.state != ProgramState::Waiting ==> {
                &&& outcome == Err::<Request<'a>, VmError>(VmError::InvalidStateTransition)
                &&& final(self)@ == old(self)@
            },
            old(self)@.state == ProgramState::Waiting ==> {
                let run = run(old(self)@.code, old(self)@.at, budget(limit));
                &&& outcome_view(outcome) == run.result
                &&& final(self)@.at == run.end
                &&& final(self)@.state == state_after(run.result)
            },
    {
        match self.state {
            ProgramState::Waiting => self.execute(limit),
            _ => Err(VmError::InvalidStateTransition),
        }
    }

    /// Answers a `PerformChoice` request: jumps to the target of option
    /// `option_id` of the branch instruction under the pointer and runs
    /// the loop from there.
    ///
    /// Fails with `InvalidStateTransition`, and changes nothing, unless the
    /// engine is waiting for a choice. Fails with `ChoiceOutOfRange`, and
    /// changes nothing either, if the branch has no such option: the engine
    /// goes on waiting for a choice.
    pub fn select(&mut self, option_id: usize, limit: Option<usize>) -> (outcome: Result<
        Request<'a>,
        VmError,
    >)
        ensures
            final(self)@.code == old(self)@.code,
            old(self)@.state != ProgramState::WaitingForChoice ==> {
                &&& outcome == Err::<Request<'a>, VmError>(VmError::InvalidStateTransition)
                &&& final(self)@ == old(self)@
            },
            old(self)@.state == ProgramState::WaitingForChoice ==> match chosen_target(
                old(self)@.code,
                old(self)@.at.ip,
                option_id as nat,
            ) {
                Some(target) => {
                    let run = run(
                        old(self)@.code,
                        Position { ip: target, frames: old(self)@.at.frames },
                        budget(limit),
                    );
                    &&& outcome_view(outcome) == run.result
                    &&& final(self)@.at == run.end
                    &&& final(self)@.state == state_after(run.result)
                },
                None => {
                    &&& outcome == Err::<Request<'a>, VmError>(VmError::ChoiceOutOfRange)
                    &&& final(self)@ == old(self)@
                },
            },
    {
        match self.state {
            ProgramState::WaitingForChoice => {
                proof {
                    use_type_invariant(&*self);
                }
                let program: &'a Program = self.my_program;
                let target = match &program.opcodes[self.instruction_ptr] {
                    Instruction::Branch(options) => if option_id < options.len() {
                        Some(options[option_id].jmp_address)
                    } else {
                        None
                    },
                    _ => None,
                };
                match target {
                    Some(address) => {
                        self.state = ProgramState::Paused;
                        self.instruction_ptr = address;
                        self.execute(limit)
                    },
                    None => Err(VmError::ChoiceOutOfRange),
                }
            },
            _ => Err(VmError::InvalidStateTransition),
        }
    }
}

/// Whether a machine that starts at `from` stands at `to` after exactly
/// `steps` instructions, none of which yielded a request or faulted.
pub open spec fn reaches(code: Seq<InstructionView>, from: Position, steps: nat, to: Position) -> bool
    decreases steps,
{
    if steps == 0 {
        from == to
    } else {
        match step(code, from) {
            Step::Continue(next) => reaches(code, next, (steps - 1) as nat, to),
            _ => false,
        }
    }
}

/// Every request that concludes a run comes from the instruction that asks
/// for it: `Wait` from a wait instruction, which the pointer has just
/// passed; `PerformChoice` from a branch instruction with the same options,
/// on which the pointer still rests; `PrintMessage` from a message
/// instruction with the same text, just passed; `Drop` from a return with
/// the frame stack empty. `Resume` is the one request that no instruction
/// produces. A run faults only with `SelfJump`, on a jump to its own
/// address, or with `AddressOutOfRange`, on a pointer outside the code.
pub proof fn lemma_request_comes_from_instruction(
    code: Seq<InstructionView>,
    at: Position,
    fuel: nat,
)
    ensures
        match run(code, at, fuel).result {
            Ok(RequestView::Wait) => {
                let end = run(code, at, fuel).end;
                &&& 1 <= end.ip <= code.len()
                &&& code[end.ip - 1] == InstructionView::Wait
            },
            Ok(RequestView::PerformChoice(options)) => {
                let end = run(code, at, fuel).end;
                &&& end.ip < code.len()
                &&& code[end.ip as int] == InstructionView::Branch(options)
            },
            Ok(RequestView::PrintMessage(text)) => {
                let end = run(code, at, fuel).end;
                &&& 1 <= end.ip <= code.len()
                &&& code[end.ip - 1] == InstructionView::Msg(text)
            },
            Ok(RequestView::Drop) => {
                let end = run(code, at, fuel).end;
                &&& end.ip < code.len()
                &&& code[end.ip as int] == InstructionView::Ret
                &&& end.frames.len() == 0
            },
            Ok(RequestView::Resume) => true,
            Err(VmError::SelfJump) => {
                let end = run(code, at, fuel).end;
                &&& end.ip < code.len()
                &&& code[end.ip as int] == InstructionView::Jmp(end.ip)
            },
            Err(VmError::AddressOutOfRange) => run(code, at, fuel).end.ip >= code.len(),
            Err(_) => false,
        },
    decreases fuel,
{
    if fuel > 0 {
        match step(code, at) {
            Step::Continue(next) => {
                lemma_request_comes_from_instruction(code, next, (fuel - 1) as nat);
            },
            _ => {},
        }
    }
}

/// A run that starts on a jump to its own address, with any budget but
/// none, faults with `SelfJump` on the spot.
pub proof fn lemma_self_jump_faults(code: Seq<InstructionView>, at: Position, fuel: nat)
    requires
        fuel > 0,
        at.ip < code.len(),
        code[at.ip as int] == InstructionView::Jmp(at.ip),
    ensures
        run(code, at, fuel) == (Run { end: at, result: Err(VmError::SelfJump) }),
{
}

/// A run that reaches a jump to its own address before its budget is spent
/// faults there with `SelfJump`, wherever it started.
pub proof fn lemma_reaching_self_jump_faults(
    code: Seq<InstructionView>,
    from: Position,
    steps: nat,
    to: Position,
    fuel: nat,
)
    requires
        reaches(code, from, steps, to),
        steps < fuel,
        to.ip < code.len(),
        code[to.ip as int] == InstructionView::Jmp(to.ip),
    ensures
        run(code, from, fuel) == (Run { end: to, result: Err(VmError::SelfJump) }),
    decreases steps,
{
    if steps == 0 {
    } else {
        match step(code, from) {
            Step::Continue(next) => {
                lemma_reaching_self_jump_faults(
                    code,
                    next,
                    (steps - 1) as nat,
                    to,
                    (fuel - 1) as nat,
                );
            },
            _ => {},
        }
    }
}

/// Whether the instruction, standing at `address` in code of `length`
/// instructions, keeps the machine inside the code: what it jumps to,
/// pushes or offers is an address of the code, no jump targets itself, and
/// an instruction that lets execution fall through is not the last.
pub open spec fn sound_instruction(instruction: InstructionView, address: nat, length: nat) -> bool {
    match instruction {
        InstructionView::Ret => true,
        InstructionView::Jmp(target) => target < length && target != address,
        InstructionView::Msg(_) => address + 1 < length,
        InstructionView::Wait => address + 1 < length,
        InstructionView::Branch(options) => leaves_within(options, length - 1),
        InstructionView::PushPtr(pushed) => pushed < length && address + 1 < length,
    }
}

/// Whether every instruction of the code keeps the machine inside it.
pub open spec fn sound_code(code: Seq<InstructionView>) -> bool {
    forall|p: int|
        0 <= p < code.len() ==> sound_instruction(#[trigger] code[p], p as nat, code.len())
}

/// Whether the pointer and every address on the frame stack are addresses
/// of the code.
pub open spec fn sound_position(code: Seq<InstructionView>, at: Position) -> bool {
    &&& at.ip < code.len()
    &&& forall|k: int| 0 <= k < at.frames.len() ==> #[trigger] at.frames[k] < code.len()
}

/// Sound code never faults: a run that starts inside it ends with a
/// request, and inside it again.
pub proof fn lemma_sound_code_never_faults(code: Seq<InstructionView>, at: Position, fuel: nat)
    requires
        sound_code(code),
        sound_position(code, at),
    ensures
        run(code, at, fuel).result is Ok,
        sound_position(code, run(code, at, fuel).end),
    decreases fuel,
{
    if fuel > 0 {
        match step(code, at) {
            Step::Continue(next) => {
                lemma_sound_code_never_faults(code, next, (fuel - 1) as nat);
            },
            _ => {},
        }
    }
}

/// In sound code every option of a branch leads inside the code.
pub proof fn lemma_sound_choice(code: Seq<InstructionView>, at: Position, option: nat)
    requires
        sound_code(code),
        sound_position(code, at),
        chosen_target(code, at.ip, option) is Some,
    ensures
        sound_position(
            code,
            Position { ip: chosen_target(code, at.ip, option).unwrap(), frames: at.frames },
        ),
{
}

} // verus!
