//! Expression trees.

use vstd::prelude::*;

verus! {

/// A parsed expression. An operand is a number literal or a variable name,
/// told apart only when the tree is evaluated; an operation holds its operator
/// and its operands, left before right.
#[derive(Debug, PartialEq)]
pub enum Expression<'a> {
    Operand(&'a str),
    Operation(&'a str, Vec<Expression<'a>>),
}

/// The mathematical value of an [`Expression`].
pub enum SpecExpr {
    Operand(Seq<char>),
    Operation(Seq<char>, Seq<SpecExpr>),
}

impl SpecExpr {
    /// Every operation in the tree has exactly two operands.
    pub open spec fn is_binary(self) -> bool
        decreases self,
    {
        match self {
            SpecExpr::Operand(_) => true,
            SpecExpr::Operation(_, operands) => {
                &&& operands.len() == 2
                &&& operands[0].is_binary()
                &&& operands[1].is_binary()
            },
        }
    }
}

impl<'a> View for Expression<'a> {
    type V = SpecExpr;

    open spec fn view(&self) -> SpecExpr
        decreases self,
    {
        match self {
            Expression::Operand(text) => SpecExpr::Operand(text@),
            Expression::Operation(operator, operands) => SpecExpr::Operation(
                operator@,
                Seq::new(
                    operands.len() as nat,
                    |i: int|
                        if 0 <= i < operands.len() {
                            operands[i].view()
                        } else {
                            SpecExpr::Operand(Seq::empty())
                        },
                ),
            ),
        }
    }
}

/// The view of a tree has the kind of the tree, and the view of an operand
/// holds the operand's characters.
pub proof fn lemma_view_kind(tree: Expression<'_>)
    ensures
        tree is Operand <==> tree@ is Operand,
        tree is Operand ==> tree@->Operand_0 == tree->Operand_0@,
        tree is Operation ==> tree@->Operation_0 == tree->Operation_0@,
        tree is Operation ==> tree@->Operation_1.len() == tree->Operation_1.len(),
        forall|i: int|
            tree is Operation && 0 <= i < tree->Operation_1.len() ==> (
            #[trigger] tree@->Operation_1[i]) == tree->Operation_1[i]@,
{
}

} // verus!
