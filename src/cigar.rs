use vstd::prelude::*;
use vstd::string::StringSliceAdditionalSpecFns;

verus! {

/// Largest length a packed operation can carry (30 bits).
pub const MAX_OP_LEN: u32 = 0x3fff_ffff;

/// Alignment orientation of the query relative to the target.
#[derive(Clone, Copy, Debug, PartialEq, Eq, Structural)]
pub enum Strand {
    Forward,
    Reverse,
}

/// Errors raised while reading alignment input.
#[derive(Clone, Copy, Debug, PartialEq, Eq, Structural)]
pub enum ParseErr {
    InvalidCigarFormat,
    InvalidCigarOp,
    CorruptSnapshot,
}

/// One alignment step packed into 32 bits: the opcode in the top two bits
/// (`=`, `X`, `I`, `D` as 0..3) and the length in the low thirty.
#[derive(Clone, Copy, Debug, PartialEq, Eq, Structural)]
pub struct CigarOp {
    pub val: u32,
}

pub open spec fn is_op_char(c: char) -> bool {
    c == '=' || c == 'X' || c == 'I' || c == 'D'
}

pub open spec fn op_code_of(c: char) -> u32 {
    if c == '=' { 0 } else if c == 'X' { 1 } else if c == 'I' { 2 } else { 3 }
}

pub open spec fn op_char_of(code: u32) -> char {
    if code == 0 { '=' } else if code == 1 { 'X' } else if code == 2 { 'I' } else { 'D' }
}

/// The packed word of an operation of length `len` and opcode `c`.
pub open spec fn pack(len: u32, c: char) -> u32 {
    (op_code_of(c) * 0x4000_0000 + len) as u32
}

/// Target advance of an operation with opcode `c` and length `len`.
pub open spec fn target_delta_of(c: char, len: int) -> int {
    if c == 'I' { 0 } else { len }
}

/// Query advance of an operation, signed by strand.
pub open spec fn query_delta_of(c: char, len: int, strand: Strand) -> int {
    if c == 'D' { 0 } else if strand == Strand::Forward { len } else { -len }
}

impl CigarOp {
    pub open spec fn spec_code(self) -> u32 {
        self.val / 0x4000_0000
    }

    pub open spec fn spec_op(self) -> char {
        op_char_of(self.spec_code())
    }

    pub open spec fn spec_len(self) -> int {
        (self.val % 0x4000_0000) as int
    }

    pub open spec fn spec_target_delta(self) -> int {
        target_delta_of(self.spec_op(), self.spec_len())
    }

    pub open spec fn spec_query_delta(self, strand: Strand) -> int {
        query_delta_of(self.spec_op(), self.spec_len(), strand)
    }

    /// Packs an operation; fails on an unknown opcode or a length outside 30 bits.
    pub fn new(len: i32, op: char) -> (r: Result<Self, ParseErr>)
        ensures
            r is Ok <==> (is_op_char(op) && 0 <= len <= MAX_OP_LEN),
            r is Ok ==> r->Ok_0.val == pack(len as u32, op) && r->Ok_0.spec_op() == op
                && r->Ok_0.spec_len() == len,
            r is Err ==> r->Err_0 == ParseErr::InvalidCigarOp,
    {
        let code: u32 = match op {
            '=' => 0,
            'X' => 1,
            'I' => 2,
            'D' => 3,
            _ => return Err(ParseErr::InvalidCigarOp),
        };
        if len < 0 || len > MAX_OP_LEN as i32 {
            return Err(ParseErr::InvalidCigarOp);
        }
        let l: u32 = len as u32;
        let val: u32 = code * 0x4000_0000 + l;
        Ok(CigarOp { val })
    }

    /// The opcode character.
    pub fn op(&self) -> (r: char)
        ensures
            r == self.spec_op(),
            is_op_char(r),
    {
        let code: u32 = self.val / 0x4000_0000;
        if code == 0 {
            '='
        } else if code == 1 {
            'X'
        } else if code == 2 {
            'I'
        } else {
            'D'
        }
    }

    /// The operation's length.
    pub fn len(&self) -> (r: i32)
        ensures
            r == self.spec_len(),
            0 <= r <= MAX_OP_LEN,
    {
        (self.val % 0x4000_0000) as i32
    }

    pub fn is_empty(&self) -> (r: bool)
        ensures
            r == (self.spec_len() == 0),
    {
        self.len() == 0
    }

    /// How far the operation advances along the target.
    pub fn target_delta(&self) -> (r: i32)
        ensures
            r == self.spec_target_delta(),
    {
        match self.op() {
            'I' => 0,
            _ => self.len(),
        }
    }

    /// How far the operation advances along the query; negative on the reverse strand.
    pub fn query_delta(&self, strand: Strand) -> (r: i32)
        ensures
            r == self.spec_query_delta(strand),
    {
        match self.op() {
            'D' => 0,
            _ => match strand {
                Strand::Forward => self.len(),
                Strand::Reverse => -self.len(),
            },
        }
    }
}

pub open spec fn is_digit(b: u8) -> bool {
    48 <= b <= 57
}

/// The operations that a CIGAR text `(digits opcode)*` denotes, starting with
/// `num` already read when `pending` holds; `None` when the text is malformed.
pub open spec fn parse_from(s: Seq<u8>, num: int, pending: bool) -> Option<Seq<CigarOp>>
    decreases s.len(),
{
    if s.len() == 0 {
        if pending { None } else { Some(Seq::empty()) }
    } else if is_digit(s[0]) {
        parse_from(s.drop_first(), num * 10 + (s[0] - 48), true)
    } else if !pending || num > MAX_OP_LEN || !is_op_char(s[0] as char) {
        None
    } else {
        match parse_from(s.drop_first(), 0, false) {
            Some(t) => Some(seq![CigarOp { val: pack(num as u32, s[0] as char) }] + t),
            None => None,
        }
    }
}

pub open spec fn parse_cigar(s: Seq<u8>) -> Option<Seq<CigarOp>> {
    parse_from(s, 0, false)
}

pub open spec fn prepend(p: Seq<CigarOp>, o: Option<Seq<CigarOp>>) -> Option<Seq<CigarOp>> {
    match o {
        Some(t) => Some(p + t),
        None => None,
    }
}

proof fn lemma_cap_digits(s: Seq<u8>, num: int, pending: bool)
    requires
        num > MAX_OP_LEN,
    ensures
        parse_from(s, num, pending) == parse_from(s, MAX_OP_LEN + 1, pending),
    decreases s.len(),
{
    if s.len() > 0 && is_digit(s[0]) {
        lemma_cap_digits(s.drop_first(), num * 10 + (s[0] - 48), true);
        lemma_cap_digits(s.drop_first(), (MAX_OP_LEN + 1) * 10 + (s[0] - 48), true);
    }
}

/// Parses a CIGAR string made of `(digits opcode)` elements with opcodes `=XID`.
pub fn parse_cigar_to_delta(cigar: &str) -> (r: Result<Vec<CigarOp>, ParseErr>)
    ensures
        match parse_cigar(cigar.spec_bytes()) {
            Some(ops) => r is Ok && r->Ok_0@ == ops,
            None => r == Err::<Vec<CigarOp>, ParseErr>(ParseErr::InvalidCigarFormat),
        },
{
    let bytes: &[u8] = cigar.as_bytes();
    let ghost s = bytes@;
    let mut ops: Vec<CigarOp> = Vec::new();
    let mut num: u32 = 0;
    let mut pending: bool = false;
    let mut i: usize = 0;
    proof {
        assert(s.subrange(0, s.len() as int) =~= s);
        if let Some(t) = parse_cigar(s) {
            assert(Seq::<CigarOp>::empty() + t =~= t);
        }
    }
    while i < bytes.len()
        invariant
            s == bytes@,
            s == cigar.spec_bytes(),
            0 <= i <= s.len(),
            num <= MAX_OP_LEN + 1,
            !pending ==> num == 0,
            parse_cigar(s) == prepend(ops@, parse_from(s.subrange(i as int, s.len() as int), num as int, pending)),
        decreases s.len() - i,
    {
        let b: u8 = bytes[i];
        let ghost rest = s.subrange(i as int, s.len() as int);
        assert(rest.drop_first() =~= s.subrange(i + 1, s.len() as int));
        if 48 <= b && b <= 57 {
            let d: u32 = (b - 48) as u32;
            let ghost next = num as int * 10 + d as int;
            if num > (MAX_OP_LEN - d) / 10 {
                proof {
                    lemma_cap_digits(rest.drop_first(), next, true);
                }
                num = MAX_OP_LEN + 1;
            } else {
                num = num * 10 + d;
            }
            pending = true;
        } else {
            if !pending || num > MAX_OP_LEN {
                return Err(ParseErr::InvalidCigarFormat);
            }
            let op = match CigarOp::new(num as i32, b as char) {
                Ok(op) => op,
                Err(_) => {
                    return Err(ParseErr::InvalidCigarFormat);
                },
            };
            proof {
                if let Some(t) = parse_from(rest.drop_first(), 0, false) {
                    assert(ops@.push(op) + t =~= ops@ + (seq![op] + t));
                }
            }
            ops.push(op);
            num = 0;
            pending = false;
        }
        i = i + 1;
    }
    if pending {
        return Err(ParseErr::InvalidCigarFormat);
    }
    proof {
        assert(ops@ + Seq::<CigarOp>::empty() =~= ops@);
    }
    Ok(ops)
}

} // verus!
