//! The executor: an instruction pointer that walks over resolved tokens and
//! applies them to the tape.
//!
//! The executor does no input or output of its own. It advances one token
//! per call of [`Executor::step`] and tells its caller what to do: nothing,
//! print a byte, or read a byte and hand it in with [`Executor::input`].
//! The caller owns the loop, and with it the decision when to stop.
//!
//! What a step does is specified by [`next`] and [`action`], two functions
//! on [`State`], the mathematical state of the machine.

use crate::memory::{blank, Memory};
use crate::parser::{lemma_extension_keeps_tokens, lemma_targets_are_mutual, resolves, Token};
use vstd::prelude::*;

verus! {

/// What the caller has to do after a step.
#[derive(Debug, Clone, Copy, PartialEq, Eq, Structural)]
pub enum Action {
    /// Nothing: the step was completed inside the machine.
    Proceed,
    /// Write this byte to the output. The step is complete.
    Print(u8),
    /// Read one byte from the input and hand it in. The machine has not
    /// moved: it waits at the `Read` token.
    Read,
    /// Nothing is left to run: the instruction pointer is past the last
    /// token.
    Stop,
}

/// The state of the machine as a mathematical value.
pub struct State {
    /// The content of the tape.
    pub tape: Map<int, u8>,
    /// The cursor: the address of the current cell.
    pub pointer: int,
    /// The instruction pointer: the position of the next token to run.
    pub index: nat,
}

/// The machine: the tape, the cursor and the instruction pointer.
pub struct Executor {
    memory: Memory,
    pointer: i32,
    index: usize,
}

/// The state in which every run begins: a blank tape, the cursor at
/// address zero and the instruction pointer at the first token.
pub open spec fn initial() -> State {
    State { tape: blank(), pointer: 0, index: 0 }
}

/// The cell under the cursor.
pub open spec fn current(state: State) -> u8 {
    state.tape[state.pointer]
}

/// `value + by` reduced modulo 256.
pub open spec fn wrapped(value: u8, by: int) -> u8 {
    ((value + by) % 256) as u8
}

/// Whether the machine waits for input: its next token is `Read`.
pub open spec fn awaits_input(state: State, tokens: Seq<Token>) -> bool {
    state.index < tokens.len() && tokens[state.index as int] == Token::Read
}

/// Whether the next step keeps the cursor among the addresses of `i32`.
pub open spec fn in_reach(state: State, tokens: Seq<Token>) -> bool {
    state.index < tokens.len() ==> match tokens[state.index as int] {
        Token::Left => state.pointer > i32::MIN,
        Token::Right => state.pointer < i32::MAX,
        _ => true,
    }
}

/// The state after one step.
///
/// Past the last token, and at a `Read`, the state stays as it is. A jump
/// that is taken sets the instruction pointer to its target; every other
/// token moves it on by one.
pub open spec fn next(state: State, tokens: Seq<Token>) -> State {
    if state.index >= tokens.len() {
        state
    } else {
        let onward = State { index: state.index + 1, ..state };
        match tokens[state.index as int] {
            Token::Plus => State {
                tape: state.tape.insert(state.pointer, wrapped(current(state), 1)),
                ..onward
            },
            Token::Minus => State {
                tape: state.tape.insert(state.pointer, wrapped(current(state), -1)),
                ..onward
            },
            Token::Left => State { pointer: state.pointer - 1, ..onward },
            Token::Right => State { pointer: state.pointer + 1, ..onward },
            Token::LeftBracket(target) => if current(state) == 0 {
                State { index: target as nat, ..state }
            } else {
                onward
            },
            Token::RightBracket(target) => if current(state) != 0 {
                State { index: target as nat, ..state }
            } else {
                onward
            },
            Token::Print => onward,
            Token::Read => state,
        }
    }
}

/// What the caller has to do after the step from `state`.
pub open spec fn action(state: State, tokens: Seq<Token>) -> Action {
    if state.index >= tokens.len() {
        Action::Stop
    } else {
        match tokens[state.index as int] {
            Token::Print => Action::Print(current(state)),
            Token::Read => Action::Read,
            _ => Action::Proceed,
        }
    }
}

/// The state after `byte` was read at a `Read` token: the byte is stored
/// under the cursor and the instruction pointer moves on.
pub open spec fn supplied(state: State, byte: u8) -> State {
    State { tape: state.tape.insert(state.pointer, byte), index: state.index + 1, ..state }
}

impl View for Executor {
    type V = State;

    closed spec fn view(&self) -> State {
        State { tape: self.memory@, pointer: self.pointer as int, index: self.index as nat }
    }
}

impl Executor {
    /// A machine in its initial state.
    pub fn new() -> (executor: Self)
        ensures
            executor@ == initial(),
    {
        Executor { memory: Memory::new(), pointer: 0, index: 0 }
    }

    /// A machine in the given state, to take a run up again.
    pub fn from_parts(memory: Memory, pointer: i32, index: usize) -> (executor: Self)
        ensures
            executor@ == (State { tape: memory@, pointer: pointer as int, index: index as nat }),
    {
        Executor { memory, pointer, index }
    }

    /// The tape.
    pub fn memory(&self) -> (memory: &Memory)
        ensures
            memory@ == self@.tape,
    {
        &self.memory
    }

    /// The cursor.
    pub fn pointer(&self) -> (pointer: i32)
        ensures
            pointer == self@.pointer,
    {
        self.pointer
    }

    /// The instruction pointer.
    pub fn index(&self) -> (index: usize)
        ensures
            index == self@.index,
    {
        self.index
    }

    /// Whether the next step keeps the cursor in reach, so that `step` may
    /// be called.
    pub fn can_step(&self, tokens: &[Token]) -> (yes: bool)
        ensures
            yes == in_reach(self@, tokens@),
    {
        if self.index >= tokens.len() {
            true
        } else {
            match tokens[self.index] {
                Token::Left => self.pointer > i32::MIN,
                Token::Right => self.pointer < i32::MAX,
                _ => true,
            }
        }
    }

    /// Runs the next token and reports what the caller has to do.
    pub fn step(&mut self, tokens: &[Token]) -> (todo: Action)
        requires
            in_reach(old(self)@, tokens@),
        ensures
            final(self)@ == next(old(self)@, tokens@),
            todo == action(old(self)@, tokens@),
    {
        if self.index >= tokens.len() {
            return Action::Stop;
        }
        let mut todo = Action::Proceed;
        match tokens[self.index] {
            Token::Minus => {
                let value = self.memory.read(self.pointer);
                self.memory.write(self.pointer, value.wrapping_sub(1));
            },
            Token::Plus => {
                let value = self.memory.read(self.pointer);
                self.memory.write(self.pointer, value.wrapping_add(1));
            },
            Token::Left => {
                self.pointer -= 1;
            },
            Token::Right => {
                self.pointer += 1;
            },
            Token::LeftBracket(target) => {
                if self.memory.read(self.pointer) == 0 {
                    self.index = target;
                    return Action::Proceed;
                }
            },
            Token::RightBracket(target) => {
                if self.memory.read(self.pointer) != 0 {
                    self.index = target;
                    return Action::Proceed;
                }
            },
            Token::Print => {
                todo = Action::Print(self.memory.read(self.pointer));
            },
            Token::Read => {
                return Action::Read;
            },
        }
        self.index += 1;
        todo
    }

    /// Hands in a byte that was read for the machine.
    ///
    /// If the machine waits at a `Read` token, the byte is stored under the
    /// cursor, the instruction pointer moves on and the result is `true`.
    /// Otherwise nothing changes and the result is `false`.
    pub fn input(&mut self, tokens: &[Token], byte: u8) -> (taken: bool)
        ensures
            taken == awaits_input(old(self)@, tokens@),
            taken ==> final(self)@ == supplied(old(self)@, byte),
            !taken ==> final(self)@ == old(self)@,
    {
        if self.index >= tokens.len() {
            return false;
        }
        match tokens[self.index] {
            Token::Read => {
                self.memory.write(self.pointer, byte);
                self.index += 1;
                true
            },
            _ => false,
        }
    }
}

/// On resolved tokens no jump is dangling: a step from a position within
/// the tokens, or just past them, leads to such a position again.
pub proof fn lemma_step_stays_in_bounds(code: Seq<char>, tokens: Seq<Token>, state: State)
    requires
        resolves(code, tokens),
        state.index <= tokens.len(),
    ensures
        next(state, tokens).index <= tokens.len(),
{
    if state.index < tokens.len() {
        lemma_targets_are_mutual(code, tokens, state.index as int);
    }
}

/// On resolved tokens a `[` met with a zero cell skips its loop: two steps
/// lead past the matching `]`, and neither changes the tape or the cursor.
pub proof fn lemma_zero_skips_loop(code: Seq<char>, tokens: Seq<Token>, state: State)
    requires
        resolves(code, tokens),
        state.index < tokens.len(),
        tokens[state.index as int] is LeftBracket,
        current(state) == 0,
    ensures
        next(next(state, tokens), tokens) == (State {
            index: (tokens[state.index as int]->LeftBracket_0 + 1) as nat,
            ..state
        }),
{
    lemma_targets_are_mutual(code, tokens, state.index as int);
}

/// On resolved tokens a `]` met with a non-zero cell repeats its loop: two
/// steps lead to the token after the matching `[`, and neither changes the
/// tape or the cursor.
pub proof fn lemma_nonzero_repeats_loop(code: Seq<char>, tokens: Seq<Token>, state: State)
    requires
        resolves(code, tokens),
        state.index < tokens.len(),
        tokens[state.index as int] is RightBracket,
        current(state) != 0,
    ensures
        next(next(state, tokens), tokens) == (State {
            index: (tokens[state.index as int]->RightBracket_0 + 1) as nat,
            ..state
        }),
{
    lemma_targets_are_mutual(code, tokens, state.index as int);
}

/// Extending the code does not change the steps over the tokens that were
/// there before: as long as the instruction pointer is among them, a step
/// on the tokens of the extension does what it did on the old tokens.
pub proof fn lemma_extension_keeps_steps(
    code: Seq<char>,
    more: Seq<char>,
    tokens: Seq<Token>,
    extended: Seq<Token>,
    state: State,
)
    requires
        resolves(code, tokens),
        resolves(code + more, extended),
        state.index < tokens.len(),
    ensures
        next(state, extended) == next(state, tokens),
        action(state, extended) == action(state, tokens),
{
    lemma_extension_keeps_tokens(code, more, tokens, extended);
    assert(extended.subrange(0, code.len() as int)[state.index as int]
        == extended[state.index as int]);
}

} // verus!
