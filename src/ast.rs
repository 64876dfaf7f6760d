//! The statement tree that a parser hands to the binder.

use vstd::prelude::*;

verus! {

/// Binary operators of the expression language.
#[derive(Debug, Clone, Copy, PartialEq, Eq, Structural)]
pub enum BinaryOpcode {
    Or,
    Xor,
    And,
    Shl,
    Shr,
    Add,
    Sub,
    Mul,
    Div,
    Mod,
}

/// Unary operators of the expression language.
#[derive(Debug, Clone, Copy, PartialEq, Eq, Structural)]
pub enum UnaryOpcode {
    Neg,
}

/// The built-in functions.
///
/// `Sample` picks a child with replacement, `Unique` visits every child once
/// per shuffled round, `WeightedSample` picks children by weight.
#[derive(Debug, Clone, Copy, PartialEq, Eq, Structural)]
pub enum Function {
    Pattern,
    Range,
    Sample,
    Unique,
    WeightedSample,
}

/// Methods that can be called on a named sequence.
#[derive(Debug, Clone, Copy, PartialEq, Eq, Structural)]
pub enum Method {
    Next,
    Prev,
    Copy,
}

/// A node of the statement tree.
#[derive(Debug)]
pub enum Node {
    Identifier(String),
    Number(u32),
    UnaryOperation(UnaryOpcode, Box<Node>),
    BinaryOperation(Box<Node>, BinaryOpcode, Box<Node>),
    Assignment(Box<Node>, Box<Node>),
    Enum(String, Vec<Box<Node>>),
    EnumItem(String, Option<Box<Node>>),
    EnumInst(String),
    EnumItemInst(String, String),
    Function(Function, Vec<Box<Node>>),
    WeightedPair(u32, Box<Node>),
    VariableMethodCall(String, Method),
}

/// A top-level entry: one statement, the expansion of a `require`, or the
/// record of a `require` whose file could not be read (its path and cause).
#[derive(Debug)]
pub enum Item {
    Single(Box<Node>),
    Multiple(Vec<Item>),
    RequireError(String, String),
}

impl BinaryOpcode {
    pub open spec fn spec_symbol(self) -> Seq<char> {
        match self {
            BinaryOpcode::Or => seq!['|'],
            BinaryOpcode::Xor => seq!['^'],
            BinaryOpcode::And => seq!['&'],
            BinaryOpcode::Shl => seq!['<', '<'],
            BinaryOpcode::Shr => seq!['>', '>'],
            BinaryOpcode::Add => seq!['+'],
            BinaryOpcode::Sub => seq!['-'],
            BinaryOpcode::Mul => seq!['*'],
            BinaryOpcode::Div => seq!['/'],
            BinaryOpcode::Mod => seq!['%'],
        }
    }

    /// The operator as it is written in the language.
    pub fn symbol(&self) -> (r: &'static str)
        ensures
            r@ == self.spec_symbol(),
    {
        match self {
            BinaryOpcode::Or => {
                proof { reveal_strlit("|"); }
                "|"
            },
            BinaryOpcode::Xor => {
                proof { reveal_strlit("^"); }
                "^"
            },
            BinaryOpcode::And => {
                proof { reveal_strlit("&"); }
                "&"
            },
            BinaryOpcode::Shl => {
                proof { reveal_strlit("<<"); }
                "<<"
            },
            BinaryOpcode::Shr => {
                proof { reveal_strlit(">>"); }
                ">>"
            },
            BinaryOpcode::Add => {
                proof { reveal_strlit("+"); }
                "+"
            },
            BinaryOpcode::Sub => {
                proof { reveal_strlit("-"); }
                "-"
            },
            BinaryOpcode::Mul => {
                proof { reveal_strlit("*"); }
                "*"
            },
            BinaryOpcode::Div => {
                proof { reveal_strlit("/"); }
                "/"
            },
            BinaryOpcode::Mod => {
                proof { reveal_strlit("%"); }
                "%"
            },
        }
    }
}

impl UnaryOpcode {
    pub open spec fn spec_symbol(self) -> Seq<char> {
        match self {
            UnaryOpcode::Neg => seq!['~'],
        }
    }

    /// The operator as it is written in the language.
    pub fn symbol(&self) -> (r: &'static str)
        ensures
            r@ == self.spec_symbol(),
    {
        match self {
            UnaryOpcode::Neg => {
                proof { reveal_strlit("~"); }
                "~"
            },
        }
    }
}

} // verus!
