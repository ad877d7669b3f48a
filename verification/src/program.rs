use vstd::prelude::*;
use vstd::string::StringSliceAdditionalSpecFns;

verus! {

/// A control state. Live states are numbered from 1; the value 0 stands for
/// "halted" and is never stored as a live state.
#[derive(Copy, Clone, Eq, PartialEq, Debug, Hash, PartialOrd, Ord, Structural)]
pub struct State(pub u8);

/// A `Bit` is just a bool that appears in a tape.
#[derive(Copy, Clone, Eq, PartialEq, Debug, Hash, PartialOrd, Ord, Structural)]
pub struct Bit(pub bool);

/// Which way the head moves after a step.
#[derive(Copy, Clone, Eq, PartialEq, Debug, Hash, Structural)]
pub enum Dir {
    Left,
    Right,
}

/// The verdict that a program provably never halts.
pub struct LoopsForever;

/// The verdict that no proof of non-halting was found.
pub struct MayHalt;

/// How many control states a transition table has room for.
pub const STATE_COUNT: usize = 5;

impl State {
    /// The letter that names the state: `H` for the halted one, `A` to `E`
    /// for the live ones.
    pub open spec fn letter_of(self) -> char {
        if self.0 == 0 {
            'H'
        } else if self.0 == 1 {
            'A'
        } else if self.0 == 2 {
            'B'
        } else if self.0 == 3 {
            'C'
        } else if self.0 == 4 {
            'D'
        } else {
            'E'
        }
    }

    /// The letter that names the state.
    pub fn letter(self) -> (r: char)
        requires
            self.0 <= STATE_COUNT,
        ensures
            r == self.letter_of(),
    {
        if self.0 == 0 {
            'H'
        } else if self.0 == 1 {
            'A'
        } else if self.0 == 2 {
            'B'
        } else if self.0 == 3 {
            'C'
        } else if self.0 == 4 {
            'D'
        } else {
            'E'
        }
    }
}

impl Bit {
    /// The digit that shows the symbol.
    pub fn digit(self) -> (r: char)
        ensures
            r == (if self.0 { '1' } else { '0' }),
    {
        if self.0 {
            '1'
        } else {
            '0'
        }
    }
}

impl Dir {
    /// The other direction.
    pub open spec fn flip(self) -> Dir {
        match self {
            Dir::Left => Dir::Right,
            Dir::Right => Dir::Left,
        }
    }

    /// The other direction.
    pub fn opposite(self) -> (r: Dir)
        ensures
            r == self.flip(),
    {
        match self {
            Dir::Left => Dir::Right,
            Dir::Right => Dir::Left,
        }
    }
}

/// A tape symbol together with the storage that holds one transition per
/// (state, symbol) pair.
pub trait BitBlock: Sized {
    type FiveStorage;

    /// The entry that `storage` holds for the state with index `state` and
    /// the symbol `sym`.
    spec fn entry(sym: Self, state: int, storage: &Self::FiveStorage) -> Option<(State, Self, Dir)>;

    fn get_by(self, state: usize, storage: &Self::FiveStorage) -> (r: &Option<(State, Self, Dir)>)
        requires
            state < STATE_COUNT,
        ensures
            *r == Self::entry(self, state as int, storage),
    ;

    fn get_by_mut(self, state: usize, storage: &mut Self::FiveStorage) -> (r: &mut Option<
        (State, Self, Dir),
    >)
        requires
            state < STATE_COUNT,
        ensures
            *r == Self::entry(self, state as int, old(storage)),
            Self::entry(self, state as int, final(storage)) == *final(r),
            forall|sym: Self, other: int|
                0 <= other < STATE_COUNT && !(sym == self && other == state) ==> #[trigger] Self::entry(
                    sym,
                    other,
                    final(storage),
                ) == Self::entry(sym, other, old(storage)),
    ;
}

/// Where a table of bits keeps the rule for the state with index `state`
/// reading `read`.
pub open spec fn slot(state: int, read: bool) -> int {
    state * 2 + (if read { 1int } else { 0int })
}

impl BitBlock for Bit {
    type FiveStorage = [Option<(State, Bit, Dir)>; 10];

    open spec fn entry(sym: Self, state: int, storage: &Self::FiveStorage) -> Option<
        (State, Self, Dir),
    > {
        storage@[slot(state, sym.0)]
    }

    fn get_by(self, state: usize, storage: &Self::FiveStorage) -> (r: &Option<(State, Self, Dir)>) {
        &storage[state * 2 + (if self.0 { 1 } else { 0 })]
    }

    fn get_by_mut(self, state: usize, storage: &mut Self::FiveStorage) -> (r: &mut Option<
        (State, Self, Dir),
    >) {
        &mut storage[state * 2 + (if self.0 { 1 } else { 0 })]
    }
}

/// A transition table: for each (state, symbol) pair either nothing, which
/// means the machine halts there, or the next state, the symbol to write and
/// the direction to move in.
#[derive(Debug)]
pub struct Program<Sym: BitBlock = Bit> {
    pub by_input_array: Sym::FiveStorage,
}

impl<Sym: BitBlock + Clone> Program<Sym> {
    /// What the table holds for `state` reading `read`, if anything.
    pub open spec fn rule(&self, read: Sym, state: State) -> Option<(State, Sym, Dir)> {
        Sym::entry(read, state.0 - 1, &self.by_input_array)
    }

    /// Looks up the transition for `state` reading `read`; `Err` where the
    /// table holds none, which is where the machine halts.
    pub fn action(&self, read: Sym, state: State) -> (r: Result<(State, Sym, Dir), MayHalt>)
        requires
            1 <= state.0 <= STATE_COUNT,
        ensures
            match self.rule(read, state) {
                None => r is Err,
                Some(a) => r is Ok && r->Ok_0.0 == a.0 && cloned(a.1, r->Ok_0.1) && r->Ok_0.2
                    == a.2,
            },
    {
        match Sym::get_by(read, (state.0 - 1) as usize, &self.by_input_array) {
            None => Err(MayHalt),
            Some(ans) => Ok((ans.0, ans.1.clone(), ans.2)),
        }
    }
}

pub const DASH: u8 = 45;

pub const DIGIT_ZERO: u8 = 48;

pub const DIGIT_ONE: u8 = 49;

pub const LETTER_A: u8 = 65;

pub const LETTER_B: u8 = 66;

pub const LETTER_C: u8 = 67;

pub const LETTER_D: u8 = 68;

pub const LETTER_E: u8 = 69;

pub const LETTER_H: u8 = 72;

pub const LETTER_L: u8 = 76;

pub const LETTER_R: u8 = 82;

pub const LETTER_Z: u8 = 90;

/// Whether `c` marks a rule as absent: the machine halts there.
pub open spec fn is_halt_mark(c: u8) -> bool {
    c == DASH || c == 0 || c == LETTER_Z || c == LETTER_H
}

/// The state that `c` names, as a letter from `A` or as a number from 1.
pub open spec fn state_of_byte(c: u8) -> Option<State> {
    if c == LETTER_A || c == 1 {
        Some(State(1))
    } else if c == LETTER_B || c == 2 {
        Some(State(2))
    } else if c == LETTER_C || c == 3 {
        Some(State(3))
    } else if c == LETTER_D || c == 4 {
        Some(State(4))
    } else if c == LETTER_E || c == 5 {
        Some(State(5))
    } else {
        None
    }
}

/// The tape symbol that `c` names, as a digit or as a number.
pub open spec fn bit_of_byte(c: u8) -> Option<Bit> {
    if c == DIGIT_ZERO || c == 0 {
        Some(Bit(false))
    } else if c == DIGIT_ONE || c == 1 {
        Some(Bit(true))
    } else {
        None
    }
}

/// The direction that `c` names, as a letter or as a number.
pub open spec fn dir_of_byte(c: u8) -> Option<Dir> {
    if c == LETTER_R || c == 0 {
        Some(Dir::Right)
    } else if c == LETTER_L || c == 1 {
        Some(Dir::Left)
    } else {
        None
    }
}

/// Where the rule for the state with index `state` reading `read` starts in
/// an encoding of `len` bytes. The long form puts a separator after each
/// state's pair of rules.
pub open spec fn rule_offset(len: nat, state: int, read: bool) -> int {
    state * (if len == 34 { 7int } else { 6int }) + (if read { 3int } else { 0int })
}

/// Whether the three bytes from `at` form a rule: a halt mark in the third
/// place, or a symbol, a direction and a state.
pub open spec fn rule_is_well_formed(bytes: Seq<u8>, at: int) -> bool {
    is_halt_mark(bytes[at + 2]) || (state_of_byte(bytes[at + 2]) is Some && bit_of_byte(
        bytes[at],
    ) is Some && dir_of_byte(bytes[at + 1]) is Some)
}

/// The rule that the three bytes from `at` encode: symbol to write, direction,
/// next state, in that order; nothing where the third is a halt mark.
pub open spec fn decoded_rule(bytes: Seq<u8>, at: int) -> Option<(State, Bit, Dir)> {
    if is_halt_mark(bytes[at + 2]) {
        None
    } else {
        Some(
            (
                state_of_byte(bytes[at + 2]).unwrap(),
                bit_of_byte(bytes[at]).unwrap(),
                dir_of_byte(bytes[at + 1]).unwrap(),
            ),
        )
    }
}

/// Whether `bytes` encodes a machine: 30 or 34 bytes, with a well-formed rule
/// for each of the five states and two symbols.
pub open spec fn is_machine_encoding(bytes: Seq<u8>) -> bool {
    &&& (bytes.len() == 30 || bytes.len() == 34)
    &&& forall|state: int, read: bool|
        0 <= state < STATE_COUNT ==> rule_is_well_formed(
            bytes,
            #[trigger] rule_offset(bytes.len(), state, read),
        )
}

fn state_from_byte(c: u8) -> (r: Option<State>)
    ensures
        r == state_of_byte(c),
{
    if c == LETTER_A || c == 1 {
        Some(State(1))
    } else if c == LETTER_B || c == 2 {
        Some(State(2))
    } else if c == LETTER_C || c == 3 {
        Some(State(3))
    } else if c == LETTER_D || c == 4 {
        Some(State(4))
    } else if c == LETTER_E || c == 5 {
        Some(State(5))
    } else {
        None
    }
}

fn bit_from_byte(c: u8) -> (r: Option<Bit>)
    ensures
        r == bit_of_byte(c),
{
    if c == DIGIT_ZERO || c == 0 {
        Some(Bit(false))
    } else if c == DIGIT_ONE || c == 1 {
        Some(Bit(true))
    } else {
        None
    }
}

fn dir_from_byte(c: u8) -> (r: Option<Dir>)
    ensures
        r == dir_of_byte(c),
{
    if c == LETTER_R || c == 0 {
        Some(Dir::Right)
    } else if c == LETTER_L || c == 1 {
        Some(Dir::Left)
    } else {
        None
    }
}

impl Program<Bit> {
    /// Every rule leads to one of the live states.
    pub open spec fn wf(&self) -> bool {
        forall|state: State, read: Bit|
            1 <= state.0 <= STATE_COUNT ==> match #[trigger] self.rule(read, state) {
                Some(a) => 1 <= a.0.0 <= STATE_COUNT,
                None => true,
            }
    }

    /// Whether every rule leads to one of the live states.
    pub fn leads_to_live_states(&self) -> (b: bool)
        ensures
            b == self.wf(),
    {
        for i in 0..10usize
            invariant
                forall|k: int|
                    0 <= k < i ==> match #[trigger] self.by_input_array@[k] {
                        Some(a) => 1 <= a.0.0 <= STATE_COUNT,
                        None => true,
                    },
        {
            match self.by_input_array[i] {
                Some(a) => {
                    if !(1 <= a.0.0 && a.0.0 <= 5) {
                        proof {
                            let state = State((i / 2 + 1) as u8);
                            let read = Bit(i % 2 == 1);
                            assert(self.rule(read, state) == Some(a));
                        }
                        return false;
                    }
                },
                None => {},
            }
        }
        proof {
            assert forall|state: State, read: Bit| 1 <= state.0 <= STATE_COUNT implies match #[trigger] self.rule(
                read,
                state,
            ) {
                Some(a) => 1 <= a.0.0 <= STATE_COUNT,
                None => true,
            } by {
                assert(self.rule(read, state) == self.by_input_array@[slot(state.0 - 1, read.0)]);
            }
        }
        true
    }

    /// Reads a machine from its encoding: 30 bytes, three per rule, or 34 bytes
    /// with a separator after each state. `None` where `s` is no such encoding.
    pub fn from_string(s: &str) -> (r: Option<Program>)
        ensures
            r is Some <==> is_machine_encoding(s.spec_bytes()),
            r is Some ==> r.unwrap().wf(),
            r is Some ==> forall|state: State, read: Bit|
                1 <= state.0 <= STATE_COUNT ==> #[trigger] r.unwrap().rule(read, state)
                    == decoded_rule(
                    s.spec_bytes(),
                    rule_offset(s.spec_bytes().len(), state.0 - 1, read.0),
                ),
    {
        let bytes = s.as_bytes();
        if !(bytes.len() == 34 || bytes.len() == 30) {
            return None;
        }
        let stride: usize = if bytes.len() == 34 { 7 } else { 6 };
        let mut rules: Program<Bit> = Program { by_input_array: [None;10] };
        for color in 0..5usize
            invariant
                bytes@ == s.spec_bytes(),
                bytes@.len() == 30 || bytes@.len() == 34,
                stride == (if bytes@.len() == 34 { 7int } else { 6int }),
                forall|k: int, b: bool|
                    0 <= k < color ==> rule_is_well_formed(
                        bytes@,
                        #[trigger] rule_offset(bytes@.len(), k, b),
                    ),
                forall|k: int, b: bool|
                    0 <= k < color ==> #[trigger] Bit::entry(Bit(b), k, &rules.by_input_array)
                        == decoded_rule(bytes@, rule_offset(bytes@.len(), k, b)),
                forall|k: int, b: bool| color <= k < 5 ==> #[trigger] Bit::entry(Bit(b), k, &rules.by_input_array) is None,
        {
            for bit in 0..2usize
                invariant
                    0 <= color < 5,
                    bytes@ == s.spec_bytes(),
                    bytes@.len() == 30 || bytes@.len() == 34,
                    stride == (if bytes@.len() == 34 { 7int } else { 6int }),
                    forall|k: int, b: bool|
                        0 <= k < color || (k == color && (if b { 1int } else { 0int }) < bit) ==> rule_is_well_formed(
                            bytes@,
                            #[trigger] rule_offset(bytes@.len(), k, b),
                        ),
                    forall|k: int, b: bool|
                        0 <= k < color || (k == color && (if b { 1int } else { 0int }) < bit) ==> #[trigger] Bit::entry(Bit(b), k, &rules.by_input_array)
                            == decoded_rule(bytes@, rule_offset(bytes@.len(), k, b)),
                    forall|k: int, b: bool| color <= k < 5 && !(k == color && (if b { 1int } else { 0int }) < bit) ==> #[trigger] Bit::entry(Bit(b), k, &rules.by_input_array) is None,
            {
                let i: usize = color * stride + bit * 3;
                assert(i as int == rule_offset(bytes@.len(), color as int, bit == 1));
                let mark = bytes[i + 2];
                if !(mark == DASH || mark == 0 || mark == LETTER_Z || mark == LETTER_H) {
                    let conc = match (state_from_byte(mark), bit_from_byte(bytes[i]), dir_from_byte(bytes[i + 1])) {
                        (Some(next), Some(write), Some(dir)) => (next, write, dir),
                        _ => {
                            assert(!rule_is_well_formed(bytes@, rule_offset(bytes@.len(), color as int, bit == 1)));
                            return None;
                        },
                    };
                    *Bit::get_by_mut(Bit(bit == 1), color, &mut rules.by_input_array) = Some(conc);
                }
            }
        }
        assert(is_machine_encoding(s.spec_bytes()));
        Some(rules)
    }
}

} // verus!
