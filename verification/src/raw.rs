//! Raw Brainfuck programs: the eight opcodes and bracket-validated sequences.

use vstd::prelude::*;
use vstd::string::StrSliceExecFns;

verus! {

/// One raw Brainfuck opcode.
#[derive(Debug, Clone, Copy, PartialEq, Eq, Structural)]
pub enum Instruction {
    ShiftRight,
    ShiftLeft,
    Add,
    Sub,
    Output,
    Input,
    OpenLoop,
    CloseLoop,
}

/// The opcode encoded by a byte, if any.
pub open spec fn spec_instr_of_byte(b: u8) -> Option<Instruction> {
    if b == 62 {
        Some(Instruction::ShiftRight)
    } else if b == 60 {
        Some(Instruction::ShiftLeft)
    } else if b == 43 {
        Some(Instruction::Add)
    } else if b == 45 {
        Some(Instruction::Sub)
    } else if b == 46 {
        Some(Instruction::Output)
    } else if b == 44 {
        Some(Instruction::Input)
    } else if b == 91 {
        Some(Instruction::OpenLoop)
    } else if b == 93 {
        Some(Instruction::CloseLoop)
    } else {
        None
    }
}

/// The byte that encodes an opcode.
pub open spec fn spec_byte_of_instr(i: Instruction) -> u8 {
    match i {
        Instruction::ShiftRight => 62,
        Instruction::ShiftLeft => 60,
        Instruction::Add => 43,
        Instruction::Sub => 45,
        Instruction::Output => 46,
        Instruction::Input => 44,
        Instruction::OpenLoop => 91,
        Instruction::CloseLoop => 93,
    }
}

impl Instruction {
    /// Decode one byte; any byte that is not an opcode is rejected.
    pub fn try_from_byte(b: u8) -> (r: Option<Instruction>)
        ensures
            r == spec_instr_of_byte(b),
    {
        match b {
            62 => Some(Instruction::ShiftRight),
            60 => Some(Instruction::ShiftLeft),
            43 => Some(Instruction::Add),
            45 => Some(Instruction::Sub),
            46 => Some(Instruction::Output),
            44 => Some(Instruction::Input),
            91 => Some(Instruction::OpenLoop),
            93 => Some(Instruction::CloseLoop),
            _ => None,
        }
    }

    /// Decode one character; any character that is not an opcode is rejected.
    pub fn try_from_char(c: char) -> (r: Option<Instruction>)
        ensures
            r == spec_instr_of_char(c),
    {
        match c {
            '>' => Some(Instruction::ShiftRight),
            '<' => Some(Instruction::ShiftLeft),
            '+' => Some(Instruction::Add),
            '-' => Some(Instruction::Sub),
            '.' => Some(Instruction::Output),
            ',' => Some(Instruction::Input),
            '[' => Some(Instruction::OpenLoop),
            ']' => Some(Instruction::CloseLoop),
            _ => None,
        }
    }

    /// The byte this opcode prints as.
    pub fn to_byte(self) -> (r: u8)
        ensures
            r == spec_byte_of_instr(self),
    {
        match self {
            Instruction::ShiftRight => 62,
            Instruction::ShiftLeft => 60,
            Instruction::Add => 43,
            Instruction::Sub => 45,
            Instruction::Output => 46,
            Instruction::Input => 44,
            Instruction::OpenLoop => 91,
            Instruction::CloseLoop => 93,
        }
    }
}

/// How an opcode changes the bracket nesting depth.
pub open spec fn depth_delta(i: Instruction) -> int {
    match i {
        Instruction::OpenLoop => 1,
        Instruction::CloseLoop => -1,
        _ => 0,
    }
}

/// Bracket nesting depth of the prefix `s[0..k]`: opens minus closes.
pub open spec fn depth(s: Seq<Instruction>, k: int) -> int
    decreases k,
{
    if k <= 0 {
        0
    } else {
        depth(s, k - 1) + depth_delta(s[k - 1])
    }
}

/// Brackets are matched: the depth never goes negative and ends at zero.
pub open spec fn matched(s: Seq<Instruction>) -> bool {
    &&& depth(s, s.len() as int) == 0
    &&& forall|k: int| 0 <= k <= s.len() ==> depth(s, k) >= 0
}

/// A validated raw Brainfuck program: a sequence of opcodes with matched brackets.
#[derive(Debug)]
pub struct Program {
    code: Vec<Instruction>,
}

impl View for Program {
    type V = Seq<Instruction>;

    closed spec fn view(&self) -> Seq<Instruction> {
        self.code@
    }
}

/// The error returned when a program's brackets do not balance.
#[derive(Debug, Clone, Copy, PartialEq, Eq, Structural)]
pub struct UnmatchedParentheses;

impl Program {
    /// Every program this type holds has matched brackets.
    #[verifier::type_invariant]
    pub open spec fn wf(self) -> bool {
        matched(self@)
    }

    /// Build a program from opcodes, rejecting it exactly when the bracket
    /// depth ever goes negative or does not return to zero at the end.
    pub fn from_instrs(code: Vec<Instruction>) -> (r: Result<Program, UnmatchedParentheses>)
        ensures
            match r {
                Ok(p) => matched(code@) && p@ == code@,
                Err(_) => !matched(code@),
            },
    {
        let n = code.len();
        let mut count: usize = 0;
        let mut i: usize = 0;
        while i < n
            invariant
                n == code@.len(),
                0 <= i <= n,
                count == depth(code@, i as int),
                forall|k: int| 0 <= k <= i ==> depth(code@, k) >= 0,
            decreases n - i,
        {
            match code[i] {
                Instruction::OpenLoop => {
                    if count == usize::MAX {
                        // more open brackets than any vector can hold
                        proof {
                            lemma_depth_le_len(code@, i + 1);
                        }
                        assert(false);
                    }
                    count = count + 1;
                },
                Instruction::CloseLoop => {
                    if count == 0 {
                        proof {
                            assert(depth(code@, i + 1) == -1);
                        }
                        return Err(UnmatchedParentheses);
                    }
                    count = count - 1;
                },
                _ => {},
            }
            i = i + 1;
        }
        if count > 0 {
            return Err(UnmatchedParentheses);
        }
        Ok(Program { code })
    }

    /// Build a program from bytes; bytes that are not opcodes are ignored.
    pub fn from_bytes(code: &Vec<u8>) -> (r: Result<Program, UnmatchedParentheses>)
        ensures
            match r {
                Ok(p) => matched(filter_bytes(code@)) && p@ == filter_bytes(code@),
                Err(_) => !matched(filter_bytes(code@)),
            },
    {
        let mut instrs: Vec<Instruction> = Vec::new();
        let n = code.len();
        let mut i: usize = 0;
        while i < n
            invariant
                n == code@.len(),
                0 <= i <= n,
                instrs@ == filter_bytes(code@.take(i as int)),
            decreases n - i,
        {
            proof {
                assert(code@.take(i + 1).drop_last() == code@.take(i as int));
            }
            if let Some(instr) = Instruction::try_from_byte(code[i]) {
                instrs.push(instr);
            }
            i = i + 1;
        }
        proof {
            assert(code@.take(n as int) == code@);
        }
        Program::from_instrs(instrs)
    }

    /// Build a program from characters; characters that are not opcodes are ignored.
    pub fn from_chars(code: &Vec<char>) -> (r: Result<Program, UnmatchedParentheses>)
        ensures
            match r {
                Ok(p) => matched(filter_chars(code@)) && p@ == filter_chars(code@),
                Err(_) => !matched(filter_chars(code@)),
            },
    {
        let mut instrs: Vec<Instruction> = Vec::new();
        let n = code.len();
        let mut i: usize = 0;
        while i < n
            invariant
                n == code@.len(),
                0 <= i <= n,
                instrs@ == filter_chars(code@.take(i as int)),
            decreases n - i,
        {
            proof {
                assert(code@.take(i + 1).drop_last() == code@.take(i as int));
            }
            if let Some(instr) = Instruction::try_from_char(code[i]) {
                instrs.push(instr);
            }
            i = i + 1;
        }
        proof {
            assert(code@.take(n as int) == code@);
        }
        Program::from_instrs(instrs)
    }

    /// The number of opcodes.
    pub fn len(&self) -> (r: usize)
        ensures
            r == self@.len(),
    {
        self.code.len()
    }

    /// The opcode at a position.
    pub fn index(&self, i: usize) -> (r: Instruction)
        requires
            i < self@.len(),
        ensures
            r == self@[i as int],
    {
        self.code[i]
    }

    /// The opcodes in order.
    pub fn iter(&self) -> (r: &Vec<Instruction>)
        ensures
            r@ == self@,
    {
        &self.code
    }

    /// The program's opcode bytes in order.
    pub fn as_bytes(&self) -> (r: Vec<u8>)
        ensures
            r@.len() == self@.len(),
            forall|i: int| 0 <= i < self@.len() ==> r@[i] == spec_byte_of_instr(self@[i]),
    {
        let mut out: Vec<u8> = Vec::new();
        let n = self.code.len();
        let mut i: usize = 0;
        while i < n
            invariant
                n == self@.len(),
                0 <= i <= n,
                out@.len() == i,
                forall|k: int| 0 <= k < i ==> out@[k] == spec_byte_of_instr(self@[k]),
            decreases n - i,
        {
            out.push(self.code[i].to_byte());
            i = i + 1;
        }
        out
    }

    /// The program's text: one character per opcode, in order.
    pub fn as_text(&self) -> (r: String)
        ensures
            r@.len() == self@.len(),
            forall|i: int| 0 <= i < self@.len() ==> r@[i] == spec_char_of_instr(self@[i]),
    {
        let mut out = String::new();
        let n = self.code.len();
        let mut i: usize = 0;
        while i < n
            invariant
                n == self@.len(),
                0 <= i <= n,
                out@.len() == i,
                forall|k: int| 0 <= k < i ==> out@[k] == spec_char_of_instr(self@[k]),
            decreases n - i,
        {
            let piece: &str = match self.code[i] {
                Instruction::ShiftRight => ">",
                Instruction::ShiftLeft => "<",
                Instruction::Add => "+",
                Instruction::Sub => "-",
                Instruction::Output => ".",
                Instruction::Input => ",",
                Instruction::OpenLoop => "[",
                Instruction::CloseLoop => "]",
            };
            proof {
                reveal_strlit(">");
                reveal_strlit("<");
                reveal_strlit("+");
                reveal_strlit("-");
                reveal_strlit(".");
                reveal_strlit(",");
                reveal_strlit("[");
                reveal_strlit("]");
            }
            out.append(piece);
            i = i + 1;
        }
        out
    }
}

impl core::str::FromStr for Program {
    type Err = UnmatchedParentheses;

    /// Parse program text, ignoring characters that are not opcodes.
    fn from_str(s: &str) -> (r: Result<Program, UnmatchedParentheses>)
        ensures
            match r {
                Ok(p) => matched(filter_chars(s@)) && p@ == filter_chars(s@),
                Err(_) => !matched(filter_chars(s@)),
            },
    {
        let n = s.unicode_len();
        let mut chars: Vec<char> = Vec::new();
        let mut i: usize = 0;
        while i < n
            invariant
                n == s@.len(),
                0 <= i <= n,
                chars@ == s@.subrange(0, i as int),
            decreases n - i,
        {
            let c = s.get_char(i);
            chars.push(c);
            proof {
                assert(chars@ =~= s@.subrange(0, i + 1));
            }
            i = i + 1;
        }
        proof {
            assert(chars@ =~= s@);
        }
        Program::from_chars(&chars)
    }
}

/// The bracket depth of a prefix is at most the prefix's length.
pub proof fn lemma_depth_le_len(s: Seq<Instruction>, k: int)
    requires
        0 <= k <= s.len(),
    ensures
        depth(s, k) <= k,
    decreases k,
{
    if k > 0 {
        lemma_depth_le_len(s, k - 1);
    }
}

/// The opcodes kept, in order, when decoding a byte sequence.
pub open spec fn filter_bytes(s: Seq<u8>) -> Seq<Instruction>
    decreases s.len(),
{
    if s.len() == 0 {
        Seq::empty()
    } else {
        let rest = filter_bytes(s.drop_last());
        match spec_instr_of_byte(s.last()) {
            Some(i) => rest.push(i),
            None => rest,
        }
    }
}

/// The opcodes kept, in order, when decoding a character sequence.
pub open spec fn filter_chars(s: Seq<char>) -> Seq<Instruction>
    decreases s.len(),
{
    if s.len() == 0 {
        Seq::empty()
    } else {
        let rest = filter_chars(s.drop_last());
        match spec_instr_of_char(s.last()) {
            Some(i) => rest.push(i),
            None => rest,
        }
    }
}

/// The character an opcode prints as.
pub open spec fn spec_char_of_instr(i: Instruction) -> char {
    match i {
        Instruction::ShiftRight => '>',
        Instruction::ShiftLeft => '<',
        Instruction::Add => '+',
        Instruction::Sub => '-',
        Instruction::Output => '.',
        Instruction::Input => ',',
        Instruction::OpenLoop => '[',
        Instruction::CloseLoop => ']',
    }
}

/// The opcode encoded by a character, if any.
pub open spec fn spec_instr_of_char(c: char) -> Option<Instruction> {
    if c == '>' {
        Some(Instruction::ShiftRight)
    } else if c == '<' {
        Some(Instruction::ShiftLeft)
    } else if c == '+' {
        Some(Instruction::Add)
    } else if c == '-' {
        Some(Instruction::Sub)
    } else if c == '.' {
        Some(Instruction::Output)
    } else if c == ',' {
        Some(Instruction::Input)
    } else if c == '[' {
        Some(Instruction::OpenLoop)
    } else if c == ']' {
        Some(Instruction::CloseLoop)
    } else {
        None
    }
}

} // verus!
