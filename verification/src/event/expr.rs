//! Expressions: the operand trees of commands.
//!
//! An expression is stored in prefix order. Each node starts with a tag byte
//! that says what the node is and how many child expressions follow it; an
//! immediate value follows its tag as four big-endian bytes, a built-in
//! function as one byte. The binary operators have the tags from `0x00` on,
//! in the order of [`BinaryOp`].

use crate::error::Error;
use crate::wire::{
    get_i32_be, get_u8, lemma_holds_split, lemma_read_held_i32_be, lemma_read_held_u8,
    put_i32_be, put_u8, spec_bytes_i32_be, spec_holds_at, spec_i32_be,
};
use vstd::prelude::*;

verus! {

/// The tag of logical negation.
pub const TAG_NOT: u8 = 0x10;

/// The tag of arithmetic negation.
pub const TAG_NEG: u8 = 0x11;

/// The tag of an immediate 32-bit value.
pub const TAG_IMM: u8 = 0x20;

/// The tag of a built-in function.
pub const TAG_FUNCTION: u8 = 0x21;

/// The tag of a variable reference.
pub const TAG_VARIABLE: u8 = 0x22;

/// The tag of a flag access.
pub const TAG_FLAG: u8 = 0x23;

/// An operator with one operand.
#[derive(Debug, Clone, Copy, PartialEq, Eq, Hash, Structural)]
pub enum UnaryOp {
    Not,
    Neg,
}

/// An operator with two operands.
#[derive(Debug, Clone, Copy, PartialEq, Eq, Hash, Structural)]
pub enum BinaryOp {
    Equal,
    NotEqual,
    Less,
    LessEqual,
    Greater,
    GreaterEqual,
    Add,
    Subtract,
    Multiply,
    Divide,
    Modulo,
    BitAnd,
    BitOr,
    BitXor,
}

/// A value computed when a command runs.
#[derive(Debug, PartialEq, Eq)]
pub enum Expr {
    /// An immediate value.
    Imm(i32),
    /// The value of the built-in function with this number.
    Function(u8),
    /// The variable whose index the operand computes.
    Variable(Box<Expr>),
    /// The flag whose index the operand computes.
    Flag(Box<Expr>),
    /// A unary operator applied to its operand.
    Unary(UnaryOp, Box<Expr>),
    /// A binary operator applied to its left and right operands.
    Binary(BinaryOp, Box<Expr>, Box<Expr>),
}

/// The target of an assignment.
#[derive(Debug, PartialEq, Eq)]
pub enum SetExpr {
    /// The variable whose index the operand computes.
    Variable(Expr),
    /// The flag whose index the operand computes.
    Flag(Expr),
}

impl Expr {
    /// A copy of the expression.
    pub fn duplicate(&self) -> (copy: Expr)
        ensures
            copy == *self,
        decreases *self,
    {
        match self {
            Expr::Imm(n) => Expr::Imm(*n),
            Expr::Function(f) => Expr::Function(*f),
            Expr::Variable(index) => Expr::Variable(Box::new(index.duplicate())),
            Expr::Flag(index) => Expr::Flag(Box::new(index.duplicate())),
            Expr::Unary(op, operand) => Expr::Unary(*op, Box::new(operand.duplicate())),
            Expr::Binary(op, left, right) => Expr::Binary(
                *op,
                Box::new(left.duplicate()),
                Box::new(right.duplicate()),
            ),
        }
    }
}

impl Clone for Expr {
    fn clone(&self) -> (copy: Self)
        ensures
            copy == *self,
    {
        self.duplicate()
    }
}

impl Clone for SetExpr {
    fn clone(&self) -> (copy: Self)
        ensures
            copy == *self,
    {
        match self {
            SetExpr::Variable(index) => SetExpr::Variable(index.duplicate()),
            SetExpr::Flag(index) => SetExpr::Flag(index.duplicate()),
        }
    }
}

/// The tag of a unary operator.
pub open spec fn spec_unary_tag(op: UnaryOp) -> u8 {
    match op {
        UnaryOp::Not => TAG_NOT,
        UnaryOp::Neg => TAG_NEG,
    }
}

/// The unary operator with this tag, if there is one.
pub open spec fn spec_unary_of(tag: u8) -> Option<UnaryOp> {
    if tag == TAG_NOT {
        Some(UnaryOp::Not)
    } else if tag == TAG_NEG {
        Some(UnaryOp::Neg)
    } else {
        None
    }
}

/// The tag of a binary operator.
pub open spec fn spec_binary_tag(op: BinaryOp) -> u8 {
    match op {
        BinaryOp::Equal => 0x00,
        BinaryOp::NotEqual => 0x01,
        BinaryOp::Less => 0x02,
        BinaryOp::LessEqual => 0x03,
        BinaryOp::Greater => 0x04,
        BinaryOp::GreaterEqual => 0x05,
        BinaryOp::Add => 0x06,
        BinaryOp::Subtract => 0x07,
        BinaryOp::Multiply => 0x08,
        BinaryOp::Divide => 0x09,
        BinaryOp::Modulo => 0x0a,
        BinaryOp::BitAnd => 0x0b,
        BinaryOp::BitOr => 0x0c,
        BinaryOp::BitXor => 0x0d,
    }
}

/// The binary operator with this tag, if there is one.
pub open spec fn spec_binary_of(tag: u8) -> Option<BinaryOp> {
    if tag == 0x00 {
        Some(BinaryOp::Equal)
    } else if tag == 0x01 {
        Some(BinaryOp::NotEqual)
    } else if tag == 0x02 {
        Some(BinaryOp::Less)
    } else if tag == 0x03 {
        Some(BinaryOp::LessEqual)
    } else if tag == 0x04 {
        Some(BinaryOp::Greater)
    } else if tag == 0x05 {
        Some(BinaryOp::GreaterEqual)
    } else if tag == 0x06 {
        Some(BinaryOp::Add)
    } else if tag == 0x07 {
        Some(BinaryOp::Subtract)
    } else if tag == 0x08 {
        Some(BinaryOp::Multiply)
    } else if tag == 0x09 {
        Some(BinaryOp::Divide)
    } else if tag == 0x0a {
        Some(BinaryOp::Modulo)
    } else if tag == 0x0b {
        Some(BinaryOp::BitAnd)
    } else if tag == 0x0c {
        Some(BinaryOp::BitOr)
    } else if tag == 0x0d {
        Some(BinaryOp::BitXor)
    } else {
        None
    }
}

/// How many child expressions follow a node with this tag, or `None` for a
/// byte that is no tag.
pub open spec fn spec_arity(tag: u8) -> Option<nat> {
    if tag == TAG_IMM || tag == TAG_FUNCTION {
        Some(0)
    } else if tag == TAG_VARIABLE || tag == TAG_FLAG || spec_unary_of(tag).is_some() {
        Some(1)
    } else if spec_binary_of(tag).is_some() {
        Some(2)
    } else {
        None
    }
}

impl UnaryOp {
    /// The operator's tag.
    pub fn tag(self) -> (tag: u8)
        ensures
            tag == spec_unary_tag(self),
            spec_unary_of(tag) == Some(self),
    {
        match self {
            UnaryOp::Not => TAG_NOT,
            UnaryOp::Neg => TAG_NEG,
        }
    }

    /// The operator with this tag, if there is one.
    pub fn from_tag(tag: u8) -> (op: Option<UnaryOp>)
        ensures
            op == spec_unary_of(tag),
    {
        if tag == TAG_NOT {
            Some(UnaryOp::Not)
        } else if tag == TAG_NEG {
            Some(UnaryOp::Neg)
        } else {
            None
        }
    }
}

impl BinaryOp {
    /// The operator's tag.
    pub fn tag(self) -> (tag: u8)
        ensures
            tag == spec_binary_tag(self),
            spec_binary_of(tag) == Some(self),
            spec_unary_of(tag).is_none(),
    {
        match self {
            BinaryOp::Equal => 0x00,
            BinaryOp::NotEqual => 0x01,
            BinaryOp::Less => 0x02,
            BinaryOp::LessEqual => 0x03,
            BinaryOp::Greater => 0x04,
            BinaryOp::GreaterEqual => 0x05,
            BinaryOp::Add => 0x06,
            BinaryOp::Subtract => 0x07,
            BinaryOp::Multiply => 0x08,
            BinaryOp::Divide => 0x09,
            BinaryOp::Modulo => 0x0a,
            BinaryOp::BitAnd => 0x0b,
            BinaryOp::BitOr => 0x0c,
            BinaryOp::BitXor => 0x0d,
        }
    }

    /// The operator with this tag, if there is one.
    pub fn from_tag(tag: u8) -> (op: Option<BinaryOp>)
        ensures
            op == spec_binary_of(tag),
    {
        if tag == 0x00 {
            Some(BinaryOp::Equal)
        } else if tag == 0x01 {
            Some(BinaryOp::NotEqual)
        } else if tag == 0x02 {
            Some(BinaryOp::Less)
        } else if tag == 0x03 {
            Some(BinaryOp::LessEqual)
        } else if tag == 0x04 {
            Some(BinaryOp::Greater)
        } else if tag == 0x05 {
            Some(BinaryOp::GreaterEqual)
        } else if tag == 0x06 {
            Some(BinaryOp::Add)
        } else if tag == 0x07 {
            Some(BinaryOp::Subtract)
        } else if tag == 0x08 {
            Some(BinaryOp::Multiply)
        } else if tag == 0x09 {
            Some(BinaryOp::Divide)
        } else if tag == 0x0a {
            Some(BinaryOp::Modulo)
        } else if tag == 0x0b {
            Some(BinaryOp::BitAnd)
        } else if tag == 0x0c {
            Some(BinaryOp::BitOr)
        } else if tag == 0x0d {
            Some(BinaryOp::BitXor)
        } else {
            None
        }
    }
}

/// How many child expressions follow a node with this tag.
pub fn arity(tag: u8) -> (n: Option<u8>)
    ensures
        match n {
            Some(k) => spec_arity(tag) == Some(k as nat),
            None => spec_arity(tag).is_none(),
        },
{
    if tag == TAG_IMM || tag == TAG_FUNCTION {
        Some(0)
    } else if tag == TAG_VARIABLE || tag == TAG_FLAG || UnaryOp::from_tag(tag).is_some() {
        Some(1)
    } else if BinaryOp::from_tag(tag).is_some() {
        Some(2)
    } else {
        None
    }
}

/// The bytes that an expression is stored as: its nodes in prefix order.
pub open spec fn spec_expr_bytes(e: Expr) -> Seq<u8>
    decreases e,
{
    match e {
        Expr::Imm(n) => seq![TAG_IMM] + spec_bytes_i32_be(n),
        Expr::Function(f) => seq![TAG_FUNCTION] + seq![f],
        Expr::Variable(index) => seq![TAG_VARIABLE] + spec_expr_bytes(*index),
        Expr::Flag(index) => seq![TAG_FLAG] + spec_expr_bytes(*index),
        Expr::Unary(op, operand) => seq![spec_unary_tag(op)] + spec_expr_bytes(*operand),
        Expr::Binary(op, left, right) => seq![spec_binary_tag(op)] + spec_expr_bytes(*left)
            + spec_expr_bytes(*right),
    }
}

/// The expression that starts at `at` and the position behind it, or `None`
/// where the bytes there are no expression: a byte that is no tag stands
/// where a node should start, or the stream ends inside the expression.
pub open spec fn spec_parse_expr(b: Seq<u8>, at: int) -> Option<(Expr, int)>
    decreases b.len() - at,
{
    if at < 0 || at >= b.len() {
        None
    } else {
        let tag = b[at];
        if tag == TAG_IMM {
            if at + 5 <= b.len() {
                Some((Expr::Imm(spec_i32_be(b, at + 1)), at + 5))
            } else {
                None
            }
        } else if tag == TAG_FUNCTION {
            if at + 2 <= b.len() {
                Some((Expr::Function(b[at + 1]), at + 2))
            } else {
                None
            }
        } else if tag == TAG_VARIABLE {
            match spec_parse_expr(b, at + 1) {
                Some((index, end)) => Some((Expr::Variable(Box::new(index)), end)),
                None => None,
            }
        } else if tag == TAG_FLAG {
            match spec_parse_expr(b, at + 1) {
                Some((index, end)) => Some((Expr::Flag(Box::new(index)), end)),
                None => None,
            }
        } else if spec_unary_of(tag).is_some() {
            match spec_parse_expr(b, at + 1) {
                Some((operand, end)) => Some(
                    (Expr::Unary(spec_unary_of(tag).unwrap(), Box::new(operand)), end),
                ),
                None => None,
            }
        } else if spec_binary_of(tag).is_some() {
            match spec_parse_expr(b, at + 1) {
                Some((left, mid)) => if at < mid <= b.len() {
                    match spec_parse_expr(b, mid) {
                        Some((right, end)) => Some(
                            (
                                Expr::Binary(
                                    spec_binary_of(tag).unwrap(),
                                    Box::new(left),
                                    Box::new(right),
                                ),
                                end,
                            ),
                        ),
                        None => None,
                    }
                } else {
                    None
                },
                None => None,
            }
        } else {
            None
        }
    }
}

/// The bytes that an assignment target is stored as.
pub open spec fn spec_set_expr_bytes(target: SetExpr) -> Seq<u8> {
    match target {
        SetExpr::Variable(index) => seq![TAG_VARIABLE] + spec_expr_bytes(index),
        SetExpr::Flag(index) => seq![TAG_FLAG] + spec_expr_bytes(index),
    }
}

/// The assignment target that starts at `at` and the position behind it, or
/// `None` where the bytes there are none.
pub open spec fn spec_parse_set_expr(b: Seq<u8>, at: int) -> Option<(SetExpr, int)> {
    if at < 0 || at >= b.len() {
        None
    } else if b[at] == TAG_VARIABLE {
        match spec_parse_expr(b, at + 1) {
            Some((index, end)) => Some((SetExpr::Variable(index), end)),
            None => None,
        }
    } else if b[at] == TAG_FLAG {
        match spec_parse_expr(b, at + 1) {
            Some((index, end)) => Some((SetExpr::Flag(index), end)),
            None => None,
        }
    } else {
        None
    }
}

/// An expression that parses ends behind its start and inside the stream.
pub proof fn lemma_parse_expr_advances(b: Seq<u8>, at: int)
    ensures
        spec_parse_expr(b, at) matches Some((_, end)) ==> at < end <= b.len(),
    decreases b.len() - at,
{
    if 0 <= at < b.len() {
        let tag = b[at];
        if tag == TAG_IMM || tag == TAG_FUNCTION {
        } else if tag == TAG_VARIABLE || tag == TAG_FLAG || spec_unary_of(tag).is_some() {
            lemma_parse_expr_advances(b, at + 1);
        } else if spec_binary_of(tag).is_some() {
            lemma_parse_expr_advances(b, at + 1);
            if let Some((_, mid)) = spec_parse_expr(b, at + 1) {
                lemma_parse_expr_advances(b, mid);
            }
        }
    }
}

/// Where the bytes of an expression stand at `at`, parsing there gives the
/// expression back and ends right behind those bytes.
pub proof fn lemma_parse_written_expr(b: Seq<u8>, at: int, e: Expr)
    requires
        spec_holds_at(b, at, spec_expr_bytes(e)),
    ensures
        spec_parse_expr(b, at) == Some((e, at + spec_expr_bytes(e).len())),
    decreases e,
{
    match e {
        Expr::Imm(n) => {
            lemma_holds_split(b, at, seq![TAG_IMM], spec_bytes_i32_be(n));
            lemma_read_held_u8(b, at, TAG_IMM);
            lemma_read_held_i32_be(b, at + 1, n);
        },
        Expr::Function(f) => {
            lemma_holds_split(b, at, seq![TAG_FUNCTION], seq![f]);
            lemma_read_held_u8(b, at, TAG_FUNCTION);
            lemma_read_held_u8(b, at + 1, f);
        },
        Expr::Variable(index) => {
            lemma_holds_split(b, at, seq![TAG_VARIABLE], spec_expr_bytes(*index));
            lemma_read_held_u8(b, at, TAG_VARIABLE);
            lemma_parse_written_expr(b, at + 1, *index);
        },
        Expr::Flag(index) => {
            lemma_holds_split(b, at, seq![TAG_FLAG], spec_expr_bytes(*index));
            lemma_read_held_u8(b, at, TAG_FLAG);
            lemma_parse_written_expr(b, at + 1, *index);
        },
        Expr::Unary(op, operand) => {
            lemma_holds_split(b, at, seq![spec_unary_tag(op)], spec_expr_bytes(*operand));
            lemma_read_held_u8(b, at, spec_unary_tag(op));
            lemma_parse_written_expr(b, at + 1, *operand);
        },
        Expr::Binary(op, left, right) => {
            let head = seq![spec_binary_tag(op)] + spec_expr_bytes(*left);
            lemma_holds_split(b, at, head, spec_expr_bytes(*right));
            lemma_holds_split(b, at, seq![spec_binary_tag(op)], spec_expr_bytes(*left));
            lemma_read_held_u8(b, at, spec_binary_tag(op));
            lemma_parse_written_expr(b, at + 1, *left);
            lemma_parse_written_expr(b, at + 1 + spec_expr_bytes(*left).len(), *right);
        },
    }
}

/// Where the bytes of an assignment target stand at `at`, parsing there
/// gives the target back and ends right behind those bytes.
pub proof fn lemma_parse_written_set_expr(b: Seq<u8>, at: int, target: SetExpr)
    requires
        spec_holds_at(b, at, spec_set_expr_bytes(target)),
    ensures
        spec_parse_set_expr(b, at) == Some((target, at + spec_set_expr_bytes(target).len())),
{
    match target {
        SetExpr::Variable(index) => {
            lemma_holds_split(b, at, seq![TAG_VARIABLE], spec_expr_bytes(index));
            lemma_read_held_u8(b, at, TAG_VARIABLE);
            lemma_parse_written_expr(b, at + 1, index);
        },
        SetExpr::Flag(index) => {
            lemma_holds_split(b, at, seq![TAG_FLAG], spec_expr_bytes(index));
            lemma_read_held_u8(b, at, TAG_FLAG);
            lemma_parse_written_expr(b, at + 1, index);
        },
    }
}

/// Reads the expression that starts at `at`. Returns it with the position
/// behind it; a byte that is no tag, or a stream that ends inside the
/// expression, is an invalid expression.
pub fn read_expr(bytes: &[u8], at: usize) -> (r: Result<(Expr, usize), Error>)
    ensures
        match r {
            Ok((e, end)) => spec_parse_expr(bytes@, at as int) == Some((e, end as int)) && at < end
                <= bytes@.len(),
            Err(err) => err == Error::InvalidExpr && spec_parse_expr(bytes@, at as int).is_none(),
        },
    decreases bytes@.len() - at,
{
    proof {
        lemma_parse_expr_advances(bytes@, at as int);
    }
    let tag = match get_u8(bytes, at) {
        Some(tag) => tag,
        None => {
            return Err(Error::InvalidExpr);
        },
    };
    if tag == TAG_IMM {
        match get_i32_be(bytes, at + 1) {
            Some(n) => Ok((Expr::Imm(n), at + 5)),
            None => Err(Error::InvalidExpr),
        }
    } else if tag == TAG_FUNCTION {
        match get_u8(bytes, at + 1) {
            Some(f) => Ok((Expr::Function(f), at + 2)),
            None => Err(Error::InvalidExpr),
        }
    } else if tag == TAG_VARIABLE {
        match read_expr(bytes, at + 1) {
            Ok((index, end)) => Ok((Expr::Variable(Box::new(index)), end)),
            Err(e) => Err(e),
        }
    } else if tag == TAG_FLAG {
        match read_expr(bytes, at + 1) {
            Ok((index, end)) => Ok((Expr::Flag(Box::new(index)), end)),
            Err(e) => Err(e),
        }
    } else if let Some(op) = UnaryOp::from_tag(tag) {
        match read_expr(bytes, at + 1) {
            Ok((operand, end)) => Ok((Expr::Unary(op, Box::new(operand)), end)),
            Err(e) => Err(e),
        }
    } else if let Some(op) = BinaryOp::from_tag(tag) {
        match read_expr(bytes, at + 1) {
            Ok((left, mid)) => match read_expr(bytes, mid) {
                Ok((right, end)) => Ok((Expr::Binary(op, Box::new(left), Box::new(right)), end)),
                Err(e) => Err(e),
            },
            Err(e) => Err(e),
        }
    } else {
        Err(Error::InvalidExpr)
    }
}

/// Appends the bytes of an expression to `out`.
pub fn write_expr(e: &Expr, out: &mut Vec<u8>)
    ensures
        final(out)@ == old(out)@ + spec_expr_bytes(*e),
    decreases *e,
{
    match e {
        Expr::Imm(n) => {
            put_u8(out, TAG_IMM);
            put_i32_be(out, *n);
        },
        Expr::Function(f) => {
            put_u8(out, TAG_FUNCTION);
            put_u8(out, *f);
        },
        Expr::Variable(index) => {
            put_u8(out, TAG_VARIABLE);
            write_expr(index, out);
        },
        Expr::Flag(index) => {
            put_u8(out, TAG_FLAG);
            write_expr(index, out);
        },
        Expr::Unary(op, operand) => {
            put_u8(out, op.tag());
            write_expr(operand, out);
        },
        Expr::Binary(op, left, right) => {
            put_u8(out, op.tag());
            write_expr(left, out);
            write_expr(right, out);
        },
    }
    assert(out@ =~= old(out)@ + spec_expr_bytes(*e));
}

/// Reads the assignment target that starts at `at`. Returns it with the
/// position behind it.
pub fn read_set_expr(bytes: &[u8], at: usize) -> (r: Result<(SetExpr, usize), Error>)
    ensures
        match r {
            Ok((t, end)) => spec_parse_set_expr(bytes@, at as int) == Some((t, end as int)) && at
                < end <= bytes@.len(),
            Err(err) => err == Error::InvalidExpr && spec_parse_set_expr(bytes@, at as int).is_none(),
        },
{
    let tag = match get_u8(bytes, at) {
        Some(tag) => tag,
        None => {
            return Err(Error::InvalidExpr);
        },
    };
    if tag == TAG_VARIABLE {
        match read_expr(bytes, at + 1) {
            Ok((index, end)) => Ok((SetExpr::Variable(index), end)),
            Err(e) => Err(e),
        }
    } else if tag == TAG_FLAG {
        match read_expr(bytes, at + 1) {
            Ok((index, end)) => Ok((SetExpr::Flag(index), end)),
            Err(e) => Err(e),
        }
    } else {
        Err(Error::InvalidExpr)
    }
}

/// Appends the bytes of an assignment target to `out`.
pub fn write_set_expr(target: &SetExpr, out: &mut Vec<u8>)
    ensures
        final(out)@ == old(out)@ + spec_set_expr_bytes(*target),
{
    match target {
        SetExpr::Variable(index) => {
            put_u8(out, TAG_VARIABLE);
            write_expr(index, out);
        },
        SetExpr::Flag(index) => {
            put_u8(out, TAG_FLAG);
            write_expr(index, out);
        },
    }
    assert(out@ =~= old(out)@ + spec_set_expr_bytes(*target));
}

} // verus!
