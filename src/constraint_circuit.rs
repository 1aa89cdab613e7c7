//! Constraint circuits: polynomial expressions over the cells of the current
//! and the next row, the challenges and constants.
use vstd::prelude::*;

use crate::field::{BFieldElement, XFieldElement};
use crate::op_stack_table::{OpStackTableChallengeId, OpStackTableChallenges};

verus! {

/// A node of a constraint circuit.
#[derive(Debug)]
pub enum ConstraintCircuit {
    /// A cell of the current row (`next_row` false) or of the next row.
    Input { column: usize, next_row: bool },
    Challenge(OpStackTableChallengeId),
    BConstant(BFieldElement),
    Add(Box<ConstraintCircuit>, Box<ConstraintCircuit>),
    Sub(Box<ConstraintCircuit>, Box<ConstraintCircuit>),
    Mul(Box<ConstraintCircuit>, Box<ConstraintCircuit>),
}

/// The cell `column` of `row`, or zero where the row has no such cell.
pub open spec fn cell(row: Seq<XFieldElement>, column: int) -> XFieldElement {
    if 0 <= column < row.len() {
        row[column]
    } else {
        XFieldElement::from_int(0)
    }
}

impl ConstraintCircuit {
    /// The circuit's value on the rows `cur` and `next` under the challenges `ch`.
    pub open spec fn eval(
        self,
        cur: Seq<XFieldElement>,
        next: Seq<XFieldElement>,
        ch: OpStackTableChallenges,
    ) -> XFieldElement
        decreases self,
    {
        match self {
            ConstraintCircuit::Input { column, next_row } => {
                if next_row {
                    cell(next, column as int)
                } else {
                    cell(cur, column as int)
                }
            },
            ConstraintCircuit::Challenge(id) => ch.spec_get(id),
            ConstraintCircuit::BConstant(b) => XFieldElement::lift_spec(b),
            ConstraintCircuit::Add(a, b) => a.eval(cur, next, ch).add_spec(b.eval(cur, next, ch)),
            ConstraintCircuit::Sub(a, b) => a.eval(cur, next, ch).sub_spec(b.eval(cur, next, ch)),
            ConstraintCircuit::Mul(a, b) => a.eval(cur, next, ch).mul_spec(b.eval(cur, next, ch)),
        }
    }

    /// The total degree of the circuit as a polynomial in the row cells.
    pub open spec fn degree_spec(self) -> nat
        decreases self,
    {
        match self {
            ConstraintCircuit::Input { .. } => 1,
            ConstraintCircuit::Challenge(_) => 0,
            ConstraintCircuit::BConstant(_) => 0,
            ConstraintCircuit::Add(a, b) => if a.degree_spec() >= b.degree_spec() {
                a.degree_spec()
            } else {
                b.degree_spec()
            },
            ConstraintCircuit::Sub(a, b) => if a.degree_spec() >= b.degree_spec() {
                a.degree_spec()
            } else {
                b.degree_spec()
            },
            ConstraintCircuit::Mul(a, b) => a.degree_spec() + b.degree_spec(),
        }
    }

    /// Whether the circuit reads only cells of the current row.
    pub open spec fn single_row(self) -> bool
        decreases self,
    {
        match self {
            ConstraintCircuit::Input { next_row, .. } => !next_row,
            ConstraintCircuit::Challenge(_) => true,
            ConstraintCircuit::BConstant(_) => true,
            ConstraintCircuit::Add(a, b) => a.single_row() && b.single_row(),
            ConstraintCircuit::Sub(a, b) => a.single_row() && b.single_row(),
            ConstraintCircuit::Mul(a, b) => a.single_row() && b.single_row(),
        }
    }

    /// The circuit's value on the rows `cur` and `next` under the challenges `challenges`.
    pub fn evaluate(
        &self,
        cur: &Vec<XFieldElement>,
        next: &Vec<XFieldElement>,
        challenges: &OpStackTableChallenges,
    ) -> (r: XFieldElement)
        ensures
            r == self.eval(cur@, next@, *challenges),
        decreases self,
    {
        match self {
            ConstraintCircuit::Input { column, next_row } => {
                let row = if *next_row {
                    next
                } else {
                    cur
                };
                if *column < row.len() {
                    row[*column]
                } else {
                    XFieldElement::zero()
                }
            },
            ConstraintCircuit::Challenge(id) => challenges.get_challenge(*id),
            ConstraintCircuit::BConstant(b) => b.lift(),
            ConstraintCircuit::Add(a, b) => {
                let x = a.evaluate(cur, next, challenges);
                let y = b.evaluate(cur, next, challenges);
                x.add(y)
            },
            ConstraintCircuit::Sub(a, b) => {
                let x = a.evaluate(cur, next, challenges);
                let y = b.evaluate(cur, next, challenges);
                x.sub(y)
            },
            ConstraintCircuit::Mul(a, b) => {
                let x = a.evaluate(cur, next, challenges);
                let y = b.evaluate(cur, next, challenges);
                x.mul(y)
            },
        }
    }

    /// The total degree of the circuit as a polynomial in the row cells.
    pub fn degree(&self) -> (r: usize)
        requires
            self.degree_spec() <= usize::MAX,
        ensures
            r == self.degree_spec(),
        decreases self,
    {
        match self {
            ConstraintCircuit::Input { .. } => 1,
            ConstraintCircuit::Challenge(_) => 0,
            ConstraintCircuit::BConstant(_) => 0,
            ConstraintCircuit::Add(a, b) | ConstraintCircuit::Sub(a, b) => {
                let x = a.degree();
                let y = b.degree();
                if x >= y {
                    x
                } else {
                    y
                }
            },
            ConstraintCircuit::Mul(a, b) => {
                let x = a.degree();
                let y = b.degree();
                x + y
            },
        }
    }
}

/// A cell of the current row.
pub fn input(column: usize) -> (r: ConstraintCircuit)
    ensures
        r == (ConstraintCircuit::Input { column, next_row: false }),
{
    ConstraintCircuit::Input { column, next_row: false }
}

/// A cell of the next row.
pub fn next_input(column: usize) -> (r: ConstraintCircuit)
    ensures
        r == (ConstraintCircuit::Input { column, next_row: true }),
{
    ConstraintCircuit::Input { column, next_row: true }
}

/// A challenge.
pub fn challenge(id: OpStackTableChallengeId) -> (r: ConstraintCircuit)
    ensures
        r == ConstraintCircuit::Challenge(id),
{
    ConstraintCircuit::Challenge(id)
}

/// A constant of the base field.
pub fn b_constant(value: u64) -> (r: ConstraintCircuit)
    ensures
        r == ConstraintCircuit::BConstant(
            BFieldElement { value: (value as int % crate::field::modulus()) as u64 },
        ),
{
    ConstraintCircuit::BConstant(BFieldElement::new(value))
}

/// The sum of two circuits.
pub fn plus(a: ConstraintCircuit, b: ConstraintCircuit) -> (r: ConstraintCircuit)
    ensures
        r == ConstraintCircuit::Add(Box::new(a), Box::new(b)),
{
    ConstraintCircuit::Add(Box::new(a), Box::new(b))
}

/// The difference of two circuits.
pub fn minus(a: ConstraintCircuit, b: ConstraintCircuit) -> (r: ConstraintCircuit)
    ensures
        r == ConstraintCircuit::Sub(Box::new(a), Box::new(b)),
{
    ConstraintCircuit::Sub(Box::new(a), Box::new(b))
}

/// The product of two circuits.
pub fn times(a: ConstraintCircuit, b: ConstraintCircuit) -> (r: ConstraintCircuit)
    ensures
        r == ConstraintCircuit::Mul(Box::new(a), Box::new(b)),
{
    ConstraintCircuit::Mul(Box::new(a), Box::new(b))
}

} // verus!
