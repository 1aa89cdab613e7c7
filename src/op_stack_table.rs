//! The op-stack table: every access to the machine's operational stack, sorted
//! by stack depth first and by clock cycle second.
use vstd::prelude::*;

use crate::constraint_circuit::{
    ConstraintCircuit, b_constant, cell, challenge, input, minus, next_input, plus, times,
};
use crate::field::{
    BFieldElement, XFieldElement, add_mod, is_inverse_or_zero, lemma_add_zero, lemma_mul_commutes,
    lemma_lift_mul, lemma_lift_sub, lemma_mul_associates, lemma_mul_one_left, lemma_mul_zero_left, lemma_sub_add_lift,
    lemma_sub_zero, lemma_ops_wf, lemma_sub_self, sub_mod,
};

verus! {

/// The number of operational-stack registers kept in the processor; the
/// op-stack pointer never goes below this value.
pub const OP_STACK_REG_COUNT: u64 = 16;

pub const BASE_WIDTH: usize = 5;

pub const EXT_WIDTH: usize = 2;

pub const FULL_WIDTH: usize = 7;

/// The columns of the base op-stack table.
#[derive(Debug, Clone, Copy, PartialEq, Eq, Structural)]
pub enum OpStackBaseTableColumn {
    CLK,
    IB1ShrinkStack,
    OSP,
    OSV,
    InverseOfClkDiffMinusOne,
}

/// The columns that extension adds to the op-stack table.
#[derive(Debug, Clone, Copy, PartialEq, Eq, Structural)]
pub enum OpStackExtTableColumn {
    RunningProductPermArg,
    AllClockJumpDifferencesPermArg,
}

pub const CLK: usize = 0;

pub const IB1: usize = 1;

pub const OSP: usize = 2;

pub const OSV: usize = 3;

pub const CLK_DI: usize = 4;

pub const RPPA: usize = 5;

pub const RPCJD: usize = 6;

impl OpStackBaseTableColumn {
    pub open spec fn spec_index(self) -> nat {
        match self {
            OpStackBaseTableColumn::CLK => 0,
            OpStackBaseTableColumn::IB1ShrinkStack => 1,
            OpStackBaseTableColumn::OSP => 2,
            OpStackBaseTableColumn::OSV => 3,
            OpStackBaseTableColumn::InverseOfClkDiffMinusOne => 4,
        }
    }

    /// The column's position in a row.
    pub fn index(self) -> (r: usize)
        ensures
            r == self.spec_index(),
            r < BASE_WIDTH,
    {
        match self {
            OpStackBaseTableColumn::CLK => CLK,
            OpStackBaseTableColumn::IB1ShrinkStack => IB1,
            OpStackBaseTableColumn::OSP => OSP,
            OpStackBaseTableColumn::OSV => OSV,
            OpStackBaseTableColumn::InverseOfClkDiffMinusOne => CLK_DI,
        }
    }
}

impl OpStackExtTableColumn {
    pub open spec fn spec_index(self) -> nat {
        match self {
            OpStackExtTableColumn::RunningProductPermArg => 5,
            OpStackExtTableColumn::AllClockJumpDifferencesPermArg => 6,
        }
    }

    /// The column's position in a row of the extension table, after the base columns.
    pub fn index(self) -> (r: usize)
        ensures
            r == self.spec_index(),
            BASE_WIDTH <= r < FULL_WIDTH,
    {
        match self {
            OpStackExtTableColumn::RunningProductPermArg => RPPA,
            OpStackExtTableColumn::AllClockJumpDifferencesPermArg => RPCJD,
        }
    }
}

/// The processor's registers in one cycle that the op-stack table records.
#[derive(Debug, Clone, Copy, PartialEq, Eq, Structural)]
pub struct ProcessorRow {
    pub clk: BFieldElement,
    pub ib1: BFieldElement,
    pub osp: BFieldElement,
    pub osv: BFieldElement,
}

/// The part of a program run's execution trace that the op-stack table is
/// made from: one row per cycle, in cycle order.
#[derive(Debug, Clone)]
pub struct AlgebraicExecutionTrace {
    pub processor_matrix: Vec<ProcessorRow>,
}

/// One more than the largest stack depth (`osp - 16`) among the rows; zero for no rows.
pub open spec fn depth_count(rows: Seq<ProcessorRow>) -> nat
    decreases rows.len(),
{
    if rows.len() == 0 {
        0
    } else {
        let c = depth_count(rows.drop_last());
        let d = rows.last().osp.val() - OP_STACK_REG_COUNT;
        if d + 1 > c {
            (d + 1) as nat
        } else {
            c
        }
    }
}

/// Each row's stack pointer is at least 16 and at most one above every
/// pointer seen before it (the first row's pointer is 16).
pub open spec fn stack_grows_by_at_most_one(rows: Seq<ProcessorRow>) -> bool {
    forall|i: int|
        0 <= i < rows.len() ==> OP_STACK_REG_COUNT <= #[trigger] rows[i].osp.val()
            <= OP_STACK_REG_COUNT + depth_count(rows.take(i))
}

/// The rows at stack depth `k`, in trace order.
pub open spec fn rows_at_depth(rows: Seq<ProcessorRow>, k: int) -> Seq<ProcessorRow> {
    rows.filter(|r: ProcessorRow| r.osp.val() == OP_STACK_REG_COUNT + k)
}

/// The rows at depths `0 .. k`, depth by depth, each depth in trace order.
pub open spec fn rows_below_depth(rows: Seq<ProcessorRow>, k: nat) -> Seq<ProcessorRow>
    decreases k,
{
    if k == 0 {
        Seq::empty()
    } else {
        rows_below_depth(rows, (k - 1) as nat) + rows_at_depth(rows, k - 1)
    }
}

/// The rows sorted by stack pointer, rows of one pointer kept in clock order.
pub open spec fn sorted_by_depth(rows: Seq<ProcessorRow>) -> Seq<ProcessorRow> {
    rows_below_depth(rows, depth_count(rows))
}

/// `next_clk - clk - 1` in the base field, whose inverse, or zero, the
/// inverse column holds.
pub open spec fn clk_diff_minus_one(clk: BFieldElement, next_clk: BFieldElement) -> int {
    sub_mod(sub_mod(next_clk.val(), clk.val()), 1)
}

/// A row of the base table whose cells are all field elements.
pub open spec fn base_row_wf(row: Seq<BFieldElement>) -> bool {
    row.len() == BASE_WIDTH && forall|j: int| 0 <= j < BASE_WIDTH ==> #[trigger] row[j].wf()
}

pub open spec fn processor_row_wf(r: ProcessorRow) -> bool {
    r.clk.wf() && r.ib1.wf() && r.osp.wf() && r.osv.wf()
}

/// A base op-stack table.
#[derive(Debug, Clone)]
pub struct OpStackTable {
    pub data: Vec<Vec<BFieldElement>>,
}

/// An op-stack table with its extension columns.
#[derive(Debug, Clone)]
pub struct ExtOpStackTable {
    pub data: Vec<Vec<XFieldElement>>,
}

impl OpStackTable {
    pub open spec fn view_rows(&self) -> Seq<Seq<BFieldElement>> {
        Seq::new(self.data@.len(), |i: int| self.data@[i]@)
    }

    pub open spec fn wf(&self) -> bool {
        forall|i: int| 0 <= i < self.data@.len() ==> base_row_wf(#[trigger] self.data@[i]@)
    }

    pub fn new(data: Vec<Vec<BFieldElement>>) -> (r: OpStackTable)
        ensures
            r.data@ == data@,
    {
        OpStackTable { data }
    }

    /// A base table holding the given rows.
    pub fn new_prover(matrix: Vec<Vec<BFieldElement>>) -> (r: OpStackTable)
        ensures
            r.data@ == matrix@,
    {
        OpStackTable { data: matrix }
    }
}

impl ExtOpStackTable {
    pub fn new(data: Vec<Vec<XFieldElement>>) -> (r: ExtOpStackTable)
        ensures
            r.data@ == data@,
    {
        ExtOpStackTable { data }
    }
}

impl Default for ExtOpStackTable {
    fn default() -> (r: ExtOpStackTable)
        ensures
            r.data@.len() == 0,
    {
        ExtOpStackTable { data: Vec::new() }
    }
}

proof fn lemma_rows_at_depth_push(s: Seq<ProcessorRow>, x: ProcessorRow, k: int)
    ensures
        rows_at_depth(s.push(x), k) == if x.osp.val() == OP_STACK_REG_COUNT + k {
            rows_at_depth(s, k).push(x)
        } else {
            rows_at_depth(s, k)
        },
{
    let t = s.push(x);
    assert(t.drop_last() =~= s);
    assert(t.last() == x);
    reveal_with_fuel(Seq::filter, 1);
}

proof fn lemma_rows_at_depth_step(rows: Seq<ProcessorRow>, i: int, k: int)
    requires
        0 <= i < rows.len(),
    ensures
        rows_at_depth(rows.take(i + 1), k) == if rows[i].osp.val() == OP_STACK_REG_COUNT + k {
            rows_at_depth(rows.take(i), k).push(rows[i])
        } else {
            rows_at_depth(rows.take(i), k)
        },
{
    assert(rows.take(i + 1) =~= rows.take(i).push(rows[i]));
    lemma_rows_at_depth_push(rows.take(i), rows[i], k);
}

proof fn lemma_depth_count_step(rows: Seq<ProcessorRow>, i: int)
    requires
        0 <= i < rows.len(),
    ensures
        depth_count(rows.take(i + 1)) == ({
            let c = depth_count(rows.take(i));
            let d = rows[i].osp.val() - OP_STACK_REG_COUNT;
            if d + 1 > c {
                (d + 1) as nat
            } else {
                c
            }
        }),
{
    assert(rows.take(i + 1).drop_last() =~= rows.take(i));
}

/// No row lies at a depth at or beyond `depth_count`.
proof fn lemma_no_rows_beyond_depth_count(s: Seq<ProcessorRow>, k: int)
    requires
        k >= depth_count(s),
    ensures
        rows_at_depth(s, k).len() == 0,
    decreases s.len(),
{
    if s.len() > 0 {
        let t = s.drop_last();
        lemma_no_rows_beyond_depth_count(t, k);
        assert(s =~= t.push(s.last()));
        lemma_rows_at_depth_push(t, s.last(), k);
    }
}

proof fn lemma_rows_below_depth_push_len(s: Seq<ProcessorRow>, x: ProcessorRow, k: nat)
    ensures
        rows_below_depth(s.push(x), k).len() == rows_below_depth(s, k).len() + if OP_STACK_REG_COUNT
            <= x.osp.val() < OP_STACK_REG_COUNT + k {
            1int
        } else {
            0int
        },
    decreases k,
{
    if k > 0 {
        lemma_rows_below_depth_push_len(s, x, (k - 1) as nat);
        lemma_rows_at_depth_push(s, x, k - 1);
    }
}

proof fn lemma_rows_below_depth_beyond(s: Seq<ProcessorRow>, k: nat)
    requires
        k >= depth_count(s),
    ensures
        rows_below_depth(s, k) == rows_below_depth(s, depth_count(s)),
    decreases k,
{
    if k > depth_count(s) {
        lemma_rows_below_depth_beyond(s, (k - 1) as nat);
        lemma_no_rows_beyond_depth_count(s, k - 1);
        assert(rows_below_depth(s, k) =~= rows_below_depth(s, (k - 1) as nat));
    }
}

/// Sorting by depth keeps every row whose stack pointer is at least 16.
pub proof fn lemma_sorted_by_depth_len(s: Seq<ProcessorRow>)
    requires
        forall|i: int| 0 <= i < s.len() ==> OP_STACK_REG_COUNT <= #[trigger] s[i].osp.val(),
    ensures
        sorted_by_depth(s).len() == s.len(),
    decreases s.len(),
{
    if s.len() > 0 {
        let t = s.drop_last();
        let x = s.last();
        assert forall|i: int| 0 <= i < t.len() implies OP_STACK_REG_COUNT <= #[trigger] t[i].osp.val() by {
            assert(t[i] == s[i]);
        }
        lemma_sorted_by_depth_len(t);
        assert(s =~= t.push(x));
        lemma_rows_below_depth_push_len(t, x, depth_count(s));
        lemma_rows_below_depth_beyond(t, depth_count(s));
    }
}

/// The rows sorted by stack pointer first and clock second: the rows are
/// put into one bucket per depth, in order, and the buckets are then joined.
#[verifier::rlimit(40)]
fn sort_by_depth(rows: &Vec<ProcessorRow>) -> (r: Vec<ProcessorRow>)
    requires
        stack_grows_by_at_most_one(rows@),
    ensures
        r@ == sorted_by_depth(rows@),
        r@.len() == rows@.len(),
{
    let n = rows.len();
    let mut buckets: Vec<Vec<ProcessorRow>> = Vec::new();
    let mut i: usize = 0;
    while i < n
        invariant
            n == rows@.len(),
            0 <= i <= n,
            stack_grows_by_at_most_one(rows@),
            buckets@.len() == depth_count(rows@.take(i as int)),
            forall|k: int|
                0 <= k < buckets@.len() ==> #[trigger] buckets@[k]@ == rows_at_depth(
                    rows@.take(i as int),
                    k,
                ),
        decreases n - i,
    {
        let row = rows[i];
        proof {
            lemma_depth_count_step(rows@, i as int);
            assert forall|k: int| true implies #[trigger] rows_at_depth(rows@.take(i + 1), k)
                == if row.osp.val() == OP_STACK_REG_COUNT + k {
                rows_at_depth(rows@.take(i as int), k).push(row)
            } else {
                rows_at_depth(rows@.take(i as int), k)
            } by {
                lemma_rows_at_depth_step(rows@, i as int, k);
            }
        }
        let depth = row.osp.value - OP_STACK_REG_COUNT;
        if depth < buckets.len() as u64 {
            let d = depth as usize;
            buckets[d].push(row);
        } else {
            proof {
                lemma_no_rows_beyond_depth_count(rows@.take(i as int), buckets@.len() as int);
            }
            let mut bucket: Vec<ProcessorRow> = Vec::new();
            bucket.push(row);
            buckets.push(bucket);
            proof {
                let k = buckets@.len() - 1;
                assert(rows_at_depth(rows@.take(i as int), k) =~= Seq::<ProcessorRow>::empty());
            }
        }
        i = i + 1;
    }
    assert(rows@.take(n as int) =~= rows@);
    let mut out: Vec<ProcessorRow> = Vec::new();
    let mut k: usize = 0;
    while k < buckets.len()
        invariant
            0 <= k <= buckets@.len(),
            buckets@.len() == depth_count(rows@),
            forall|b: int|
                0 <= b < buckets@.len() ==> #[trigger] buckets@[b]@ == rows_at_depth(rows@, b),
            out@ == rows_below_depth(rows@, k as nat),
        decreases buckets@.len() - k,
    {
        let mut j: usize = 0;
        while j < buckets[k].len()
            invariant
                0 <= k < buckets@.len(),
                0 <= j <= buckets@[k as int]@.len(),
                out@ == rows_below_depth(rows@, k as nat) + buckets@[k as int]@.take(j as int),
            decreases buckets@[k as int]@.len() - j,
        {
            out.push(buckets[k][j]);
            proof {
                assert(buckets@[k as int]@.take(j + 1) =~= buckets@[k as int]@.take(j as int).push(
                    buckets@[k as int]@[j as int],
                ));
            }
            j = j + 1;
        }
        assert(buckets@[k as int]@.take(j as int) =~= buckets@[k as int]@);
        k = k + 1;
    }
    proof {
        assert forall|i: int| 0 <= i < rows@.len() implies OP_STACK_REG_COUNT
            <= #[trigger] rows@[i].osp.val() by {}
        lemma_sorted_by_depth_len(rows@);
    }
    out
}

impl OpStackTable {
    /// Writes the op-stack rows of `aet` into the first rows of `op_stack_table`:
    /// the processor's rows sorted by stack pointer, then by clock, each with
    /// the inverse of (next clock - clock - 1), or zero, in its last column.
    /// The last trace row's inverse column and the rows after the trace are
    /// left as they were.
    pub fn fill_trace(op_stack_table: &mut Vec<Vec<BFieldElement>>, aet: &AlgebraicExecutionTrace)
        requires
            aet.processor_matrix@.len() >= 1,
            old(op_stack_table)@.len() >= aet.processor_matrix@.len(),
            forall|i: int|
                0 <= i < old(op_stack_table)@.len() ==> #[trigger] old(op_stack_table)@[i]@.len()
                    == BASE_WIDTH,
            stack_grows_by_at_most_one(aet.processor_matrix@),
        ensures
            final(op_stack_table)@.len() == old(op_stack_table)@.len(),
            forall|i: int|
                0 <= i < final(op_stack_table)@.len() ==> #[trigger] final(op_stack_table)@[i]@.len()
                    == BASE_WIDTH,
            ({
                let s = sorted_by_depth(aet.processor_matrix@);
                let n = aet.processor_matrix@.len();
                let t = final(op_stack_table)@;
                &&& s.len() == n
                &&& forall|i: int|
                    0 <= i < n ==> {
                        &&& (#[trigger] t[i])@[CLK as int] == s[i].clk
                        &&& t[i]@[IB1 as int] == s[i].ib1
                        &&& t[i]@[OSP as int] == s[i].osp
                        &&& t[i]@[OSV as int] == s[i].osv
                    }
                &&& forall|i: int|
                    0 <= i < n - 1 ==> is_inverse_or_zero(
                        clk_diff_minus_one(s[i].clk, s[i + 1].clk),
                        (#[trigger] t[i])@[CLK_DI as int].val(),
                    )
                &&& t[n - 1]@[CLK_DI as int] == old(op_stack_table)@[n - 1]@[CLK_DI as int]
                &&& forall|i: int| n <= i < t.len() ==> #[trigger] t[i] == old(op_stack_table)@[i]
            }),
            is_filled_from(
                aet.processor_matrix@,
                Seq::new(
                    aet.processor_matrix@.len(),
                    |i: int| final(op_stack_table)@[i]@,
                ),
            ),
    {
        let sorted = sort_by_depth(&aet.processor_matrix);
        let n = sorted.len();
        let ghost old_table = op_stack_table@;
        let mut r: usize = 0;
        while r < n
            invariant
                n == sorted@.len(),
                n <= old_table.len(),
                op_stack_table@.len() == old_table.len(),
                0 <= r <= n,
                forall|i: int|
                    0 <= i < op_stack_table@.len() ==> #[trigger] op_stack_table@[i]@.len()
                        == BASE_WIDTH,
                forall|i: int|
                    0 <= i < r ==> {
                        &&& (#[trigger] op_stack_table@[i])@[CLK as int] == sorted@[i].clk
                        &&& op_stack_table@[i]@[IB1 as int] == sorted@[i].ib1
                        &&& op_stack_table@[i]@[OSP as int] == sorted@[i].osp
                        &&& op_stack_table@[i]@[OSV as int] == sorted@[i].osv
                        &&& op_stack_table@[i]@[CLK_DI as int] == old_table[i]@[CLK_DI as int]
                    },
                forall|i: int| r <= i < op_stack_table@.len() ==> #[trigger] op_stack_table@[i]
                    == old_table[i],
            decreases n - r,
        {
            let row = sorted[r];
            op_stack_table[r][CLK] = row.clk;
            op_stack_table[r][IB1] = row.ib1;
            op_stack_table[r][OSP] = row.osp;
            op_stack_table[r][OSV] = row.osv;
            r = r + 1;
        }
        let mut r: usize = 0;
        while r + 1 < n
            invariant
                n == sorted@.len(),
                n >= 1,
                n <= old_table.len(),
                op_stack_table@.len() == old_table.len(),
                0 <= r < n,
                forall|i: int|
                    0 <= i < op_stack_table@.len() ==> #[trigger] op_stack_table@[i]@.len()
                        == BASE_WIDTH,
                forall|i: int|
                    0 <= i < n ==> {
                        &&& (#[trigger] op_stack_table@[i])@[CLK as int] == sorted@[i].clk
                        &&& op_stack_table@[i]@[IB1 as int] == sorted@[i].ib1
                        &&& op_stack_table@[i]@[OSP as int] == sorted@[i].osp
                        &&& op_stack_table@[i]@[OSV as int] == sorted@[i].osv
                    },
                forall|i: int|
                    0 <= i < r ==> is_inverse_or_zero(
                        clk_diff_minus_one(sorted@[i].clk, sorted@[i + 1].clk),
                        (#[trigger] op_stack_table@[i])@[CLK_DI as int].val(),
                    ),
                forall|i: int|
                    r <= i < n ==> (#[trigger] op_stack_table@[i])@[CLK_DI as int]
                        == old_table[i]@[CLK_DI as int],
                forall|i: int| n <= i < op_stack_table@.len() ==> #[trigger] op_stack_table@[i]
                    == old_table[i],
            decreases n - r,
        {
            let clk = op_stack_table[r][CLK];
            let next_clk = op_stack_table[r + 1][CLK];
            let clk_diff = next_clk.sub(clk);
            let clk_diff_minus_1 = clk_diff.sub(BFieldElement::one());
            op_stack_table[r][CLK_DI] = clk_diff_minus_1.inverse_or_zero();
            r = r + 1;
        }
        proof {
            let rows = Seq::new(n as nat, |i: int| op_stack_table@[i]@);
            assert forall|i: int| 0 <= i < rows.len() implies {
                &&& (#[trigger] rows[i])[CLK as int] == sorted@[i].clk
                &&& rows[i][IB1 as int] == sorted@[i].ib1
                &&& rows[i][OSP as int] == sorted@[i].osp
                &&& rows[i][OSV as int] == sorted@[i].osv
            } by {
                assert(rows[i] == op_stack_table@[i]@);
            }
            assert forall|i: int| 0 <= i < rows.len() - 1 implies is_inverse_or_zero(
                clk_diff_minus_one(sorted@[i].clk, sorted@[i + 1].clk),
                (#[trigger] rows[i])[CLK_DI as int].val(),
            ) by {
                assert(rows[i] == op_stack_table@[i]@);
            }
        }
    }
}

/// `t` is the first row whose clock is the table's largest, `rows.len() - 1`.
pub open spec fn is_template_index(rows: Seq<Seq<BFieldElement>>, t: int) -> bool {
    &&& 0 <= t < rows.len()
    &&& rows[t][CLK as int].val() == rows.len() - 1
    &&& forall|j: int| 0 <= j < t ==> (#[trigger] rows[j])[CLK as int].val() != rows.len() - 1
}

/// `padded` is `rows` padded to height `h` from the template row `t`: the
/// template's inverse column is set to zero, and after it come `h - rows.len()`
/// copies of it whose clocks count up by one; the last copy's inverse column
/// holds the inverse of (next clock - clock - 1), or zero, where a row follows it.
pub open spec fn is_padding_of(
    rows: Seq<Seq<BFieldElement>>,
    padded: Seq<Seq<BFieldElement>>,
    t: int,
    h: int,
) -> bool {
    let n = rows.len() as int;
    let m = h - n;
    &&& padded.len() == h
    &&& forall|i: int| 0 <= i < t ==> #[trigger] padded[i] == rows[i]
    &&& forall|i: int| t + m < i < h ==> #[trigger] padded[i] == rows[i - m]
    &&& forall|i: int|
        t <= i <= t + m ==> {
            &&& (#[trigger] padded[i]).len() == BASE_WIDTH
            &&& padded[i][CLK as int].wf()
            &&& padded[i][CLK as int].val() == add_mod(rows[t][CLK as int].val(), i - t)
            &&& padded[i][IB1 as int] == rows[t][IB1 as int]
            &&& padded[i][OSP as int] == rows[t][OSP as int]
            &&& padded[i][OSV as int] == rows[t][OSV as int]
            &&& (i < t + m || m == 0 || t + 1 >= n) ==> padded[i][CLK_DI as int].val() == 0
        }
    &&& (m > 0 && t + 1 < n) ==> is_inverse_or_zero(
        clk_diff_minus_one(padded[t + m][CLK as int], rows[t + 1][CLK as int]),
        padded[t + m][CLK_DI as int].val(),
    )
}

/// A copy of a row.
fn copy_row(row: &Vec<BFieldElement>) -> (r: Vec<BFieldElement>)
    ensures
        r@ == row@,
{
    let mut r: Vec<BFieldElement> = Vec::new();
    let mut j: usize = 0;
    while j < row.len()
        invariant
            0 <= j <= row@.len(),
            r@ == row@.take(j as int),
        decreases row@.len() - j,
    {
        r.push(row[j]);
        proof {
            assert(row@.take(j + 1) =~= row@.take(j as int).push(row@[j as int]));
        }
        j = j + 1;
    }
    assert(row@.take(j as int) =~= row@);
    r
}

impl OpStackTable {
    /// Pads the table to `padded_height` rows, keeping its order by stack
    /// pointer, then clock: copies of the row with the largest clock are
    /// inserted right after it, their clocks counting up from it.
    pub fn pad(&mut self, padded_height: usize)
        requires
            old(self).wf(),
            old(self).data@.len() >= 1,
            padded_height >= old(self).data@.len(),
            exists|j: int|
                0 <= j < old(self).data@.len() && (#[trigger] old(self).data@[j])@[CLK as int].val()
                    == old(self).data@.len() - 1,
        ensures
            final(self).data@.len() == padded_height,
            exists|t: int|
                is_template_index(old(self).view_rows(), t) && is_padding_of(
                    old(self).view_rows(),
                    final(self).view_rows(),
                    t,
                    padded_height as int,
                ),
    {
        let ghost rows = self.view_rows();
        let n = self.data.len();
        let max_clock = (n - 1) as u64;
        let num_padding_rows = padded_height - n;
        let mut t: usize = 0;
        while t < n && self.data[t][CLK].value != max_clock
            invariant
                0 <= t <= n,
                n == self.data@.len(),
                max_clock == n - 1,
                rows == self.view_rows(),
                old(self).wf(),
                *self == *old(self),
                forall|j: int| 0 <= j < t ==> (#[trigger] rows[j])[CLK as int].val() != n - 1,
            decreases n - t,
        {
            assert(rows[t as int] == self.data@[t as int]@);
            t = t + 1;
        }
        if t == n {
            proof {
                let j = choose|j: int|
                    0 <= j < old(self).data@.len() && (#[trigger] old(self).data@[j])@[CLK as int].val()
                        == old(self).data@.len() - 1;
                assert(rows[j] == self.data@[j]@);
            }
        }
        assert(rows[t as int] == self.data@[t as int]@);
        assert(is_template_index(rows, t as int));
        self.data[t][CLK_DI] = BFieldElement::zero();
        let mut padding_rows: Vec<Vec<BFieldElement>> = Vec::new();
        while padding_rows.len() < num_padding_rows
            invariant
                padding_rows@.len() <= num_padding_rows,
                0 <= t < n,
                n == self.data@.len(),
                self.data@[t as int]@ == rows[t as int].update(CLK_DI as int, BFieldElement { value: 0 }),
                base_row_wf(rows[t as int]),
                forall|i: int|
                    0 <= i < padding_rows@.len() ==> (#[trigger] padding_rows@[i])@
                        == rows[t as int].update(CLK_DI as int, BFieldElement { value: 0 }).update(
                        CLK as int,
                        BFieldElement {
                            value: add_mod(rows[t as int][CLK as int].val(), i + 1) as u64,
                        },
                    ),
            decreases num_padding_rows - padding_rows@.len(),
        {
            let mut padding_row = copy_row(&self.data[t]);
            let k = padding_rows.len();
            let step = BFieldElement::new((k + 1) as u64);
            proof {
                vstd::arithmetic::div_mod::lemma_add_mod_noop_right(
                    rows[t as int][CLK as int].val(),
                    k + 1,
                    crate::field::modulus(),
                );
            }
            padding_row[CLK] = padding_row[CLK].add(step);
            padding_rows.push(padding_row);
        }
        let ghost unfixed = padding_rows@;
        if num_padding_rows > 0 && t + 1 < n {
            let last = num_padding_rows - 1;
            let clk = padding_rows[last][CLK];
            let next_clk = self.data[t + 1][CLK];
            let clk_diff = next_clk.sub(clk);
            padding_rows[last][CLK_DI] = clk_diff.sub(BFieldElement::one()).inverse_or_zero();
            assert(padding_rows@[last as int]@ == unfixed[last as int]@.update(
                CLK_DI as int,
                padding_rows@[last as int]@[CLK_DI as int],
            ));
        }
        assert(padding_rows@.len() == num_padding_rows);
        assert forall|i: int| 0 <= i < num_padding_rows implies {
            let row = (#[trigger] padding_rows@[i])@;
            &&& row.len() == BASE_WIDTH
            &&& row[CLK as int] == BFieldElement {
                value: add_mod(rows[t as int][CLK as int].val(), i + 1) as u64,
            }
            &&& row[IB1 as int] == rows[t as int][IB1 as int]
            &&& row[OSP as int] == rows[t as int][OSP as int]
            &&& row[OSV as int] == rows[t as int][OSV as int]
            &&& (i < num_padding_rows - 1 || t + 1 >= n) ==> row[CLK_DI as int].val() == 0
        } by {
            assert(unfixed[i]@ == rows[t as int].update(CLK_DI as int, BFieldElement { value: 0 }).update(
                CLK as int,
                BFieldElement { value: add_mod(rows[t as int][CLK as int].val(), i + 1) as u64 },
            ));
        }
        let ghost before = self.data@;
        let ghost padding_rows_final = padding_rows@;
        let mut tail = self.data.split_off(t + 1);
        self.data.append(&mut padding_rows);
        self.data.append(&mut tail);
        proof {
            let padded = self.view_rows();
            let m = num_padding_rows as int;
            assert forall|i: int| 0 <= i < t implies #[trigger] padded[i] == rows[i] by {
                assert(self.data@[i] == before[i]);
            }
            assert forall|i: int| t + m < i < padded_height implies #[trigger] padded[i] == rows[i
                - m] by {
                assert(self.data@[i] == before[i - m]);
            }
            assert(padded.len() == padded_height);
            assert forall|i: int| t <= i <= t + m implies {
                &&& (#[trigger] padded[i]).len() == BASE_WIDTH
                &&& padded[i][CLK as int].wf()
                &&& padded[i][CLK as int].val() == add_mod(rows[t as int][CLK as int].val(), i - t)
                &&& padded[i][IB1 as int] == rows[t as int][IB1 as int]
                &&& padded[i][OSP as int] == rows[t as int][OSP as int]
                &&& padded[i][OSV as int] == rows[t as int][OSV as int]
                &&& (i < t + m || m == 0 || t + 1 >= n) ==> padded[i][CLK_DI as int].val() == 0
            } by {
                assert(padded[i] == self.data@[i]@);
                if i == t {
                    assert(self.data@[i] == before[i]);
                    assert(old(self).data@[i]@ == rows[i]);
                    assert(base_row_wf(rows[i]));
                    assert(rows[i][CLK as int].wf());
                    assert(padded[i][CLK as int] == rows[i][CLK as int]);
                } else {
                    let k = i - t - 1;
                    assert(self.data@[i] == padding_rows_final[k]);
                    assert(0 <= k < m);
                    assert(padding_rows_final[k]@[CLK as int] == BFieldElement {
                        value: add_mod(rows[t as int][CLK as int].val(), k + 1) as u64,
                    });
                    assert(0 <= add_mod(rows[t as int][CLK as int].val(), k + 1) < crate::field::modulus());
                }
            }
            assert(is_padding_of(rows, padded, t as int, padded_height as int));
        }
    }
}

/// The verifier's random scalars that the op-stack table uses.
#[derive(Debug, Clone, Copy, PartialEq, Eq, Structural)]
pub enum OpStackTableChallengeId {
    ProcessorPermIndeterminate,
    ClkWeight,
    Ib1Weight,
    OsvWeight,
    OspWeight,
    AllClockJumpDifferencesMultiPermIndeterminate,
}

/// The number of permutation arguments the op-stack table takes part in.
pub const OP_STACK_TABLE_NUM_PERMUTATION_ARGUMENTS: usize = 1;

/// The number of evaluation arguments the op-stack table takes part in.
pub const OP_STACK_TABLE_NUM_EVALUATION_ARGUMENTS: usize = 0;

/// The number of challenges of the op-stack table.
pub const OP_STACK_TABLE_NUM_EXTENSION_CHALLENGES: usize = 6;

impl OpStackTableChallengeId {
    pub open spec fn spec_index(self) -> nat {
        match self {
            OpStackTableChallengeId::ProcessorPermIndeterminate => 0,
            OpStackTableChallengeId::ClkWeight => 1,
            OpStackTableChallengeId::Ib1Weight => 2,
            OpStackTableChallengeId::OsvWeight => 3,
            OpStackTableChallengeId::OspWeight => 4,
            OpStackTableChallengeId::AllClockJumpDifferencesMultiPermIndeterminate => 5,
        }
    }

    /// The challenge's position in the list of the table's challenges.
    pub fn index(self) -> (r: usize)
        ensures
            r == self.spec_index(),
            r < OP_STACK_TABLE_NUM_EXTENSION_CHALLENGES,
    {
        match self {
            OpStackTableChallengeId::ProcessorPermIndeterminate => 0,
            OpStackTableChallengeId::ClkWeight => 1,
            OpStackTableChallengeId::Ib1Weight => 2,
            OpStackTableChallengeId::OsvWeight => 3,
            OpStackTableChallengeId::OspWeight => 4,
            OpStackTableChallengeId::AllClockJumpDifferencesMultiPermIndeterminate => 5,
        }
    }
}

impl From<OpStackTableChallengeId> for usize {
    fn from(id: OpStackTableChallengeId) -> (r: usize) {
        id.index()
    }
}

impl vstd::std_specs::convert::FromSpecImpl<OpStackTableChallengeId> for usize {
    open spec fn obeys_from_spec() -> bool {
        true
    }

    open spec fn from_spec(id: OpStackTableChallengeId) -> usize {
        id.spec_index() as usize
    }
}

/// The values of the op-stack table's challenges.
#[derive(Debug, Clone, Copy)]
pub struct OpStackTableChallenges {
    /// The indeterminate of the permutation argument with the processor table.
    pub processor_perm_indeterminate: XFieldElement,
    /// Weights for compressing part of a row into a single value.
    pub clk_weight: XFieldElement,
    pub ib1_weight: XFieldElement,
    pub osv_weight: XFieldElement,
    pub osp_weight: XFieldElement,
    /// The indeterminate for accumulating all clock jump differences.
    pub all_clock_jump_differences_multi_perm_indeterminate: XFieldElement,
}

impl OpStackTableChallenges {
    pub open spec fn wf(&self) -> bool {
        &&& self.processor_perm_indeterminate.wf()
        &&& self.clk_weight.wf()
        &&& self.ib1_weight.wf()
        &&& self.osv_weight.wf()
        &&& self.osp_weight.wf()
        &&& self.all_clock_jump_differences_multi_perm_indeterminate.wf()
    }

    pub open spec fn spec_get(&self, id: OpStackTableChallengeId) -> XFieldElement {
        match id {
            OpStackTableChallengeId::ProcessorPermIndeterminate => self.processor_perm_indeterminate,
            OpStackTableChallengeId::ClkWeight => self.clk_weight,
            OpStackTableChallengeId::Ib1Weight => self.ib1_weight,
            OpStackTableChallengeId::OsvWeight => self.osv_weight,
            OpStackTableChallengeId::OspWeight => self.osp_weight,
            OpStackTableChallengeId::AllClockJumpDifferencesMultiPermIndeterminate => {
                self.all_clock_jump_differences_multi_perm_indeterminate
            },
        }
    }

    /// The value of the challenge `id`.
    pub fn get_challenge(&self, id: OpStackTableChallengeId) -> (r: XFieldElement)
        ensures
            r == self.spec_get(id),
    {
        match id {
            OpStackTableChallengeId::ProcessorPermIndeterminate => self.processor_perm_indeterminate,
            OpStackTableChallengeId::ClkWeight => self.clk_weight,
            OpStackTableChallengeId::Ib1Weight => self.ib1_weight,
            OpStackTableChallengeId::OsvWeight => self.osv_weight,
            OpStackTableChallengeId::OspWeight => self.osp_weight,
            OpStackTableChallengeId::AllClockJumpDifferencesMultiPermIndeterminate => {
                self.all_clock_jump_differences_multi_perm_indeterminate
            },
        }
    }
}

pub open spec fn lift(b: BFieldElement) -> XFieldElement {
    XFieldElement::lift_spec(b)
}

/// A row's clock, shrink-stack indicator, stack pointer and stack value,
/// combined with the challenge weights into one value.
pub open spec fn compress(row: Seq<BFieldElement>, ch: OpStackTableChallenges) -> XFieldElement {
    lift(row[CLK as int]).mul_spec(ch.clk_weight).add_spec(
        lift(row[IB1 as int]).mul_spec(ch.ib1_weight),
    ).add_spec(lift(row[OSP as int]).mul_spec(ch.osp_weight)).add_spec(
        lift(row[OSV as int]).mul_spec(ch.osv_weight),
    )
}

/// The running product of the permutation argument after row `i`: one times
/// `(indeterminate - compress(row))` for every row up to and including `i`.
pub open spec fn running_product(
    rows: Seq<Seq<BFieldElement>>,
    ch: OpStackTableChallenges,
    i: nat,
) -> XFieldElement
    decreases i,
{
    let prev = if i == 0 {
        XFieldElement::from_int(1)
    } else {
        running_product(rows, ch, (i - 1) as nat)
    };
    prev.mul_spec(ch.processor_perm_indeterminate.sub_spec(compress(rows[i as int], ch)))
}

/// The clock difference between row `i` and the row before it, lifted.
pub open spec fn clock_jump_difference(rows: Seq<Seq<BFieldElement>>, i: int) -> XFieldElement {
    lift(
        BFieldElement {
            value: sub_mod(rows[i][CLK as int].val(), rows[i - 1][CLK as int].val()) as u64,
        },
    )
}

/// Row `i` and the row before it share a stack pointer and their clock
/// difference exceeds one.
pub open spec fn has_clock_jump(rows: Seq<Seq<BFieldElement>>, i: int) -> bool {
    &&& i > 0
    &&& rows[i - 1][OSP as int] == rows[i][OSP as int]
    &&& sub_mod(rows[i][CLK as int].val(), rows[i - 1][CLK as int].val()) > 1
}

/// The running product of all clock jump differences after row `i`: one
/// times `(indeterminate - difference)` for every row up to `i` that has a
/// clock jump.
pub open spec fn clock_jump_product(
    rows: Seq<Seq<BFieldElement>>,
    ch: OpStackTableChallenges,
    i: nat,
) -> XFieldElement
    decreases i,
{
    if i == 0 {
        XFieldElement::from_int(1)
    } else {
        let prev = clock_jump_product(rows, ch, (i - 1) as nat);
        if has_clock_jump(rows, i as int) {
            prev.mul_spec(
                ch.all_clock_jump_differences_multi_perm_indeterminate.sub_spec(
                    clock_jump_difference(rows, i as int),
                ),
            )
        } else {
            prev
        }
    }
}

/// Row `i` of the extension table: the lifted base row, then the two
/// running products after that row.
pub open spec fn extension_row(
    rows: Seq<Seq<BFieldElement>>,
    ch: OpStackTableChallenges,
    i: int,
) -> Seq<XFieldElement> {
    Seq::new(BASE_WIDTH as nat, |j: int| lift(rows[i][j])).push(
        running_product(rows, ch, i as nat),
    ).push(clock_jump_product(rows, ch, i as nat))
}

/// `ext` is the extension of the base rows `rows` under the challenges `ch`.
pub open spec fn is_extension_of(
    rows: Seq<Seq<BFieldElement>>,
    ch: OpStackTableChallenges,
    ext: Seq<Seq<XFieldElement>>,
) -> bool {
    &&& ext.len() == rows.len()
    &&& forall|i: int| 0 <= i < rows.len() ==> #[trigger] ext[i] == extension_row(rows, ch, i)
}

impl ExtOpStackTable {
    pub open spec fn view_rows(&self) -> Seq<Seq<XFieldElement>> {
        Seq::new(self.data@.len(), |i: int| self.data@[i]@)
    }
}

impl OpStackTable {
    /// The extension table: each row lifted to the extension field, followed
    /// by the running product of the permutation argument with the processor
    /// table and the running product of the clock jump differences.
    pub fn extend(&self, challenges: &OpStackTableChallenges) -> (r: ExtOpStackTable)
        requires
            self.wf(),
            challenges.wf(),
        ensures
            is_extension_of(self.view_rows(), *challenges, r.view_rows()),
    {
        let ghost rows = self.view_rows();
        let n = self.data.len();
        let mut extension_matrix: Vec<Vec<XFieldElement>> = Vec::new();
        let mut running_product_acc = XFieldElement::one();
        let mut clock_jump_acc = XFieldElement::one();
        let mut i: usize = 0;
        while i < n
            invariant
                n == self.data@.len(),
                rows == self.view_rows(),
                self.wf(),
                challenges.wf(),
                0 <= i <= n,
                extension_matrix@.len() == i,
                running_product_acc.wf(),
                running_product_acc == if i == 0 {
                    XFieldElement::from_int(1)
                } else {
                    running_product(rows, *challenges, (i - 1) as nat)
                },
                clock_jump_acc.wf(),
                clock_jump_acc == if i == 0 {
                    XFieldElement::from_int(1)
                } else {
                    clock_jump_product(rows, *challenges, (i - 1) as nat)
                },
                forall|k: int|
                    0 <= k < i ==> (#[trigger] extension_matrix@[k])@ == extension_row(
                        rows,
                        *challenges,
                        k,
                    ),
            decreases n - i,
        {
            let row = &self.data[i];
            assert(base_row_wf(row@));
            let mut extension_row_vec: Vec<XFieldElement> = Vec::new();
            let mut j: usize = 0;
            while j < BASE_WIDTH
                invariant
                    0 <= j <= BASE_WIDTH,
                    row@.len() == BASE_WIDTH,
                    extension_row_vec@ == Seq::new(j as nat, |c: int| lift(row@[c])),
                decreases BASE_WIDTH - j,
            {
                extension_row_vec.push(row[j].lift());
                proof {
                    assert(extension_row_vec@ =~= Seq::new((j + 1) as nat, |c: int| lift(row@[c])));
                }
                j = j + 1;
            }
            let clk = row[CLK].lift();
            let ib1 = row[IB1].lift();
            let osp = row[OSP].lift();
            let osv = row[OSV].lift();
            let compressed_row = clk.mul(challenges.clk_weight).add(
                ib1.mul(challenges.ib1_weight),
            ).add(osp.mul(challenges.osp_weight)).add(osv.mul(challenges.osv_weight));
            assert(row@ == rows[i as int]);
            assert(compressed_row == compress(rows[i as int], *challenges));
            running_product_acc = running_product_acc.mul(
                challenges.processor_perm_indeterminate.sub(compressed_row),
            );
            extension_row_vec.push(running_product_acc);
            if i > 0 {
                let previous_row = &self.data[i - 1];
                assert(previous_row@ == rows[i - 1]);
                assert(base_row_wf(previous_row@));
                if previous_row[OSP] == row[OSP] {
                    let difference = row[CLK].sub(previous_row[CLK]);
                    let clock_jump_difference = difference.lift();
                    if difference.value > 1 {
                        clock_jump_acc = clock_jump_acc.mul(
                            challenges.all_clock_jump_differences_multi_perm_indeterminate.sub(
                                clock_jump_difference,
                            ),
                        );
                    }
                }
            }
            extension_row_vec.push(clock_jump_acc);
            proof {
                assert(extension_row_vec@ =~= extension_row(rows, *challenges, i as int));
            }
            extension_matrix.push(extension_row_vec);
            i = i + 1;
        }
        let r = ExtOpStackTable { data: extension_matrix };
        assert(r.view_rows() =~= Seq::new(n as nat, |k: int| extension_matrix@[k]@));
        r
    }

    /// The extension table of a verifier, who holds no rows.
    pub fn for_verifier() -> (r: ExtOpStackTable)
        ensures
            r.data@.len() == 0,
    {
        ExtOpStackTable { data: Vec::new() }
    }
}

/// The values that the initial constraints take on the row `cur`: clock,
/// stack value, stack pointer minus 16, the permutation argument's running
/// product against its first factor, and the clock jump product against one.
pub open spec fn initial_constraint_values(
    cur: Seq<XFieldElement>,
    ch: OpStackTableChallenges,
) -> Seq<XFieldElement> {
    let sixteen = XFieldElement::from_int(16);
    let compressed_row = ch.ib1_weight.mul_spec(cell(cur, IB1 as int)).add_spec(
        ch.osp_weight.mul_spec(sixteen),
    );
    seq![
        cell(cur, CLK as int),
        cell(cur, OSV as int),
        cell(cur, OSP as int).sub_spec(sixteen),
        cell(cur, RPPA as int).sub_spec(ch.processor_perm_indeterminate.sub_spec(compressed_row)),
        cell(cur, RPCJD as int).sub_spec(XFieldElement::from_int(1)),
    ]
}

impl ExtOpStackTable {
    /// The constraints on the first row.
    pub fn ext_initial_constraints_as_circuits() -> (r: Vec<ConstraintCircuit>)
        ensures
            r@.len() == 5,
            forall|k: int| 0 <= k < r@.len() ==> (#[trigger] r@[k]).single_row(),
            forall|cur: Seq<XFieldElement>, next: Seq<XFieldElement>, ch: OpStackTableChallenges, k: int|
                0 <= k < r@.len() ==> #[trigger] r@[k].eval(cur, next, ch)
                    == initial_constraint_values(cur, ch)[k],
            r@[0].degree_spec() == 1,
            r@[1].degree_spec() == 1,
            r@[2].degree_spec() == 1,
            r@[3].degree_spec() == 1,
            r@[4].degree_spec() == 1,
    {
        let clk_is_0 = input(CLK);
        let osv_is_0 = input(OSV);
        let osp_is_16 = minus(input(OSP), b_constant(16));
        // The running product of the permutation argument starts off having
        // accumulated the first row, whose clock and stack value are 0 and
        // whose stack pointer is 16.
        let compressed_row = plus(
            times(challenge(OpStackTableChallengeId::Ib1Weight), input(IB1)),
            times(challenge(OpStackTableChallengeId::OspWeight), b_constant(16)),
        );
        let rppa_initial = minus(
            challenge(OpStackTableChallengeId::ProcessorPermIndeterminate),
            compressed_row,
        );
        let rppa_starts_correctly = minus(input(RPPA), rppa_initial);
        // The running product of clock jump differences starts with one.
        let rpcjd_starts_correctly = minus(input(RPCJD), b_constant(1));
        let r = vec![
            clk_is_0,
            osv_is_0,
            osp_is_16,
            rppa_starts_correctly,
            rpcjd_starts_correctly,
        ];
        proof {
            assert(16int % crate::field::modulus() == 16);
            assert(1int % crate::field::modulus() == 1);
            reveal_with_fuel(ConstraintCircuit::eval, 5);
            reveal_with_fuel(ConstraintCircuit::degree_spec, 5);
            reveal_with_fuel(ConstraintCircuit::single_row, 5);
        }
        r
    }

    /// The constraints on each single row: there are none.
    pub fn ext_consistency_constraints_as_circuits() -> (r: Vec<ConstraintCircuit>)
        ensures
            r@.len() == 0,
    {
        Vec::new()
    }

    /// The constraints on the last row: there are none.
    pub fn ext_terminal_constraints_as_circuits() -> (r: Vec<ConstraintCircuit>)
        ensures
            r@.len() == 0,
    {
        Vec::new()
    }
}

pub open spec fn one() -> XFieldElement {
    XFieldElement::from_int(1)
}

/// The stack pointer grows by one or stays.
pub open spec fn osp_step_value(cur: Seq<XFieldElement>, next: Seq<XFieldElement>) -> XFieldElement {
    let osp = cell(cur, OSP as int);
    let osp_next = cell(next, OSP as int);
    osp_next.sub_spec(osp.add_spec(one())).mul_spec(osp_next.sub_spec(osp))
}

/// The stack pointer grows by one, or the stack value stays, or the
/// instruction shrinks the stack.
pub open spec fn osv_step_value(cur: Seq<XFieldElement>, next: Seq<XFieldElement>) -> XFieldElement {
    let osp = cell(cur, OSP as int);
    let osp_next = cell(next, OSP as int);
    osp_next.sub_spec(osp.add_spec(one())).mul_spec(
        cell(next, OSV as int).sub_spec(cell(cur, OSV as int)),
    ).mul_spec(one().sub_spec(cell(cur, IB1 as int)))
}

/// `next[col] - cur[col] - 1`.
pub open spec fn diff_minus_one_value(
    cur: Seq<XFieldElement>,
    next: Seq<XFieldElement>,
    col: int,
) -> XFieldElement {
    cell(next, col).sub_spec(cell(cur, col)).sub_spec(one())
}

/// `(osp' - osp - 1) * (clk_di * (clk' - clk - 1) - 1)`: zero where the stack
/// pointer moves or the inverse column is the inverse of (clk' - clk - 1).
pub open spec fn clk_di_factor(cur: Seq<XFieldElement>, next: Seq<XFieldElement>) -> XFieldElement {
    diff_minus_one_value(cur, next, OSP as int).mul_spec(
        cell(cur, CLK_DI as int).mul_spec(diff_minus_one_value(cur, next, CLK as int)).sub_spec(one()),
    )
}

/// Where the stack pointer stays, the inverse column is zero or the inverse.
pub open spec fn clk_di_zero_or_inverse_value(
    cur: Seq<XFieldElement>,
    next: Seq<XFieldElement>,
) -> XFieldElement {
    clk_di_factor(cur, next).mul_spec(cell(cur, CLK_DI as int))
}

/// Where the stack pointer stays, (clk' - clk - 1) is zero or has an inverse
/// in the inverse column.
pub open spec fn cdmo_zero_or_inverse_value(
    cur: Seq<XFieldElement>,
    next: Seq<XFieldElement>,
) -> XFieldElement {
    clk_di_factor(cur, next).mul_spec(diff_minus_one_value(cur, next, CLK as int))
}

/// The clock jump product takes the factor `(beta - clock difference)`
/// exactly where the stack pointer stays and the clock jumps by more than one.
pub open spec fn clock_jump_update_value(
    cur: Seq<XFieldElement>,
    next: Seq<XFieldElement>,
    ch: OpStackTableChallenges,
) -> XFieldElement {
    let clk = cell(cur, CLK as int);
    let osp = cell(cur, OSP as int);
    let rpcjd = cell(cur, RPCJD as int);
    let clk_next = cell(next, CLK as int);
    let osp_next = cell(next, OSP as int);
    let rpcjd_next = cell(next, RPCJD as int);
    let cdmo = diff_minus_one_value(cur, next, CLK as int);
    let beta = ch.all_clock_jump_differences_multi_perm_indeterminate;
    cdmo.mul_spec(one().sub_spec(osp_next).add_spec(osp)).mul_spec(
        rpcjd_next.sub_spec(rpcjd.mul_spec(beta.sub_spec(clk_next).add_spec(clk))),
    ).add_spec(
        one().sub_spec(cdmo.mul_spec(cell(cur, CLK_DI as int))).mul_spec(rpcjd_next.sub_spec(rpcjd)),
    ).add_spec(osp_next.sub_spec(osp).mul_spec(rpcjd_next.sub_spec(rpcjd)))
}

/// The next row's clock, indicator, pointer and value, combined with the weights.
pub open spec fn compressed_next_value(
    next: Seq<XFieldElement>,
    ch: OpStackTableChallenges,
) -> XFieldElement {
    ch.clk_weight.mul_spec(cell(next, CLK as int)).add_spec(
        ch.ib1_weight.mul_spec(cell(next, IB1 as int)),
    ).add_spec(ch.osp_weight.mul_spec(cell(next, OSP as int))).add_spec(
        ch.osv_weight.mul_spec(cell(next, OSV as int)),
    )
}

/// The permutation argument's running product takes the factor
/// `(alpha - compressed next row)`.
pub open spec fn running_product_update_value(
    cur: Seq<XFieldElement>,
    next: Seq<XFieldElement>,
    ch: OpStackTableChallenges,
) -> XFieldElement {
    cell(next, RPPA as int).sub_spec(
        cell(cur, RPPA as int).mul_spec(
            ch.processor_perm_indeterminate.sub_spec(compressed_next_value(next, ch)),
        ),
    )
}

/// The values that the transition constraints take on the rows `cur` and `next`.
pub open spec fn transition_constraint_values(
    cur: Seq<XFieldElement>,
    next: Seq<XFieldElement>,
    ch: OpStackTableChallenges,
) -> Seq<XFieldElement> {
    seq![
        osp_step_value(cur, next),
        osv_step_value(cur, next),
        clk_di_zero_or_inverse_value(cur, next),
        cdmo_zero_or_inverse_value(cur, next),
        clock_jump_update_value(cur, next, ch),
        running_product_update_value(cur, next, ch),
    ]
}

/// `next - current - 1` for the column `col`, as a circuit.
fn diff_minus_one(col: usize) -> (r: ConstraintCircuit)
    ensures
        forall|cur: Seq<XFieldElement>, next: Seq<XFieldElement>, ch: OpStackTableChallenges|
            #[trigger] r.eval(cur, next, ch) == cell(next, col as int).sub_spec(
                cell(cur, col as int),
            ).sub_spec(XFieldElement::from_int(1)),
        r.degree_spec() == 1,
{
    let r = minus(minus(next_input(col), input(col)), b_constant(1));
    proof {
        assert(1int % crate::field::modulus() == 1);
        reveal_with_fuel(ConstraintCircuit::eval, 3);
        reveal_with_fuel(ConstraintCircuit::degree_spec, 3);
    }
    r
}

/// `challenge(weight) * next[col]`, as a circuit.
fn weighted_next(weight: OpStackTableChallengeId, col: usize) -> (r: ConstraintCircuit)
    ensures
        forall|cur: Seq<XFieldElement>, next: Seq<XFieldElement>, ch: OpStackTableChallenges|
            #[trigger] r.eval(cur, next, ch) == ch.spec_get(weight).mul_spec(
                cell(next, col as int),
            ),
        r.degree_spec() == 1,
{
    let r = times(challenge(weight), next_input(col));
    proof {
        reveal_with_fuel(ConstraintCircuit::eval, 2);
        reveal_with_fuel(ConstraintCircuit::degree_spec, 2);
    }
    r
}

fn osp_step_circuit() -> (r: ConstraintCircuit)
    ensures
        forall|cur: Seq<XFieldElement>, next: Seq<XFieldElement>, ch: OpStackTableChallenges|
            #[trigger] r.eval(cur, next, ch) == osp_step_value(cur, next),
        r.degree_spec() == 2,
{
    let r = times(
        minus(next_input(OSP), plus(input(OSP), b_constant(1))),
        minus(next_input(OSP), input(OSP)),
    );
    proof {
        assert(1int % crate::field::modulus() == 1);
        reveal_with_fuel(ConstraintCircuit::eval, 4);
        reveal_with_fuel(ConstraintCircuit::degree_spec, 4);
    }
    r
}

fn osv_step_circuit() -> (r: ConstraintCircuit)
    ensures
        forall|cur: Seq<XFieldElement>, next: Seq<XFieldElement>, ch: OpStackTableChallenges|
            #[trigger] r.eval(cur, next, ch) == osv_step_value(cur, next),
        r.degree_spec() == 3,
{
    let r = times(
        times(
            minus(next_input(OSP), plus(input(OSP), b_constant(1))),
            minus(next_input(OSV), input(OSV)),
        ),
        minus(b_constant(1), input(IB1)),
    );
    proof {
        assert(1int % crate::field::modulus() == 1);
        reveal_with_fuel(ConstraintCircuit::eval, 5);
        reveal_with_fuel(ConstraintCircuit::degree_spec, 5);
    }
    r
}

fn clk_di_factor_circuit() -> (r: ConstraintCircuit)
    ensures
        forall|cur: Seq<XFieldElement>, next: Seq<XFieldElement>, ch: OpStackTableChallenges|
            #[trigger] r.eval(cur, next, ch) == clk_di_factor(cur, next),
        r.degree_spec() == 3,
{
    let dm_osp = diff_minus_one(OSP);
    let dm_clk = diff_minus_one(CLK);
    let di = input(CLK_DI);
    let prod = times(di, dm_clk);
    let inner = minus(prod, b_constant(1));
    let r = times(dm_osp, inner);
    proof {
        assert(1int % crate::field::modulus() == 1);
        reveal_with_fuel(ConstraintCircuit::eval, 3);
        reveal_with_fuel(ConstraintCircuit::degree_spec, 4);
        assert forall|cur: Seq<XFieldElement>, next: Seq<XFieldElement>, ch: OpStackTableChallenges|
            #[trigger] r.eval(cur, next, ch) == clk_di_factor(cur, next) by {
            assert(dm_osp.eval(cur, next, ch) == diff_minus_one_value(cur, next, OSP as int));
            assert(dm_clk.eval(cur, next, ch) == diff_minus_one_value(cur, next, CLK as int));
            assert(prod.eval(cur, next, ch) == cell(cur, CLK_DI as int).mul_spec(
                diff_minus_one_value(cur, next, CLK as int),
            ));
            assert(inner.eval(cur, next, ch) == cell(cur, CLK_DI as int).mul_spec(
                diff_minus_one_value(cur, next, CLK as int),
            ).sub_spec(one()));
        }
    }
    r
}

fn clock_jump_update_circuit() -> (r: ConstraintCircuit)
    ensures
        forall|cur: Seq<XFieldElement>, next: Seq<XFieldElement>, ch: OpStackTableChallenges|
            #[trigger] r.eval(cur, next, ch) == clock_jump_update_value(cur, next, ch),
        r.degree_spec() == 4,
{
    let beta = OpStackTableChallengeId::AllClockJumpDifferencesMultiPermIndeterminate;
    let cdmo = diff_minus_one(CLK);
    let osp_stays = plus(minus(b_constant(1), next_input(OSP)), input(OSP));
    let factor = plus(minus(challenge(beta), next_input(CLK)), input(CLK));
    let updated = minus(next_input(RPCJD), times(input(RPCJD), factor));
    let accumulates = times(times(cdmo, osp_stays), updated);
    let cdmo_again = diff_minus_one(CLK);
    let no_jump = times(
        minus(b_constant(1), times(cdmo_again, input(CLK_DI))),
        minus(next_input(RPCJD), input(RPCJD)),
    );
    let osp_moves = times(
        minus(next_input(OSP), input(OSP)),
        minus(next_input(RPCJD), input(RPCJD)),
    );
    let r = plus(plus(accumulates, no_jump), osp_moves);
    proof {
        assert(1int % crate::field::modulus() == 1);
        reveal_with_fuel(ConstraintCircuit::eval, 4);
        reveal_with_fuel(ConstraintCircuit::degree_spec, 4);
        assert(osp_stays.degree_spec() == 1);
        assert(factor.degree_spec() == 1);
        assert(updated.degree_spec() == 2);
        assert(accumulates.degree_spec() == 4);
        assert(no_jump.degree_spec() == 3);
        assert forall|cur: Seq<XFieldElement>, next: Seq<XFieldElement>, ch: OpStackTableChallenges|
            #[trigger] r.eval(cur, next, ch) == clock_jump_update_value(cur, next, ch) by {
            let d = diff_minus_one_value(cur, next, CLK as int);
            assert(cdmo.eval(cur, next, ch) == d);
            assert(cdmo_again.eval(cur, next, ch) == d);
            assert(osp_stays.eval(cur, next, ch) == one().sub_spec(cell(next, OSP as int)).add_spec(
                cell(cur, OSP as int),
            ));
            assert(factor.eval(cur, next, ch)
                == ch.all_clock_jump_differences_multi_perm_indeterminate.sub_spec(
                cell(next, CLK as int),
            ).add_spec(cell(cur, CLK as int)));
            let rpcjd = cell(cur, RPCJD as int);
            let rpcjd_next = cell(next, RPCJD as int);
            assert(updated.eval(cur, next, ch) == rpcjd_next.sub_spec(
                rpcjd.mul_spec(factor.eval(cur, next, ch)),
            ));
            assert(accumulates.eval(cur, next, ch) == d.mul_spec(
                one().sub_spec(cell(next, OSP as int)).add_spec(cell(cur, OSP as int)),
            ).mul_spec(updated.eval(cur, next, ch)));
            assert(no_jump.eval(cur, next, ch) == one().sub_spec(
                d.mul_spec(cell(cur, CLK_DI as int)),
            ).mul_spec(rpcjd_next.sub_spec(rpcjd)));
            assert(osp_moves.eval(cur, next, ch) == cell(next, OSP as int).sub_spec(
                cell(cur, OSP as int),
            ).mul_spec(rpcjd_next.sub_spec(rpcjd)));
        }
    }
    r
}

fn compressed_next_circuit() -> (r: ConstraintCircuit)
    ensures
        forall|cur: Seq<XFieldElement>, next: Seq<XFieldElement>, ch: OpStackTableChallenges|
            #[trigger] r.eval(cur, next, ch) == compressed_next_value(next, ch),
        r.degree_spec() == 1,
{
    let w_clk = weighted_next(OpStackTableChallengeId::ClkWeight, CLK);
    let w_ib1 = weighted_next(OpStackTableChallengeId::Ib1Weight, IB1);
    let w_osp = weighted_next(OpStackTableChallengeId::OspWeight, OSP);
    let w_osv = weighted_next(OpStackTableChallengeId::OsvWeight, OSV);
    let r = plus(plus(plus(w_clk, w_ib1), w_osp), w_osv);
    proof {
        reveal_with_fuel(ConstraintCircuit::eval, 4);
        reveal_with_fuel(ConstraintCircuit::degree_spec, 4);
        assert forall|cur: Seq<XFieldElement>, next: Seq<XFieldElement>, ch: OpStackTableChallenges|
            #[trigger] r.eval(cur, next, ch) == compressed_next_value(next, ch) by {
            assert(w_clk.eval(cur, next, ch) == ch.clk_weight.mul_spec(cell(next, CLK as int)));
            assert(w_ib1.eval(cur, next, ch) == ch.ib1_weight.mul_spec(cell(next, IB1 as int)));
            assert(w_osp.eval(cur, next, ch) == ch.osp_weight.mul_spec(cell(next, OSP as int)));
            assert(w_osv.eval(cur, next, ch) == ch.osv_weight.mul_spec(cell(next, OSV as int)));
        }
    }
    r
}

fn running_product_update_circuit() -> (r: ConstraintCircuit)
    ensures
        forall|cur: Seq<XFieldElement>, next: Seq<XFieldElement>, ch: OpStackTableChallenges|
            #[trigger] r.eval(cur, next, ch) == running_product_update_value(cur, next, ch),
        r.degree_spec() == 2,
{
    let compressed_row = compressed_next_circuit();
    let r = minus(
        next_input(RPPA),
        times(
            input(RPPA),
            minus(challenge(OpStackTableChallengeId::ProcessorPermIndeterminate), compressed_row),
        ),
    );
    proof {
        reveal_with_fuel(ConstraintCircuit::eval, 4);
        reveal_with_fuel(ConstraintCircuit::degree_spec, 4);
        assert forall|cur: Seq<XFieldElement>, next: Seq<XFieldElement>, ch: OpStackTableChallenges|
            #[trigger] r.eval(cur, next, ch) == running_product_update_value(cur, next, ch) by {
            assert(compressed_row.eval(cur, next, ch) == compressed_next_value(next, ch));
        }
    }
    r
}

impl ExtOpStackTable {
    /// The constraints on each pair of consecutive rows.
    pub fn ext_transition_constraints_as_circuits() -> (r: Vec<ConstraintCircuit>)
        ensures
            r@.len() == 6,
            forall|cur: Seq<XFieldElement>, next: Seq<XFieldElement>, ch: OpStackTableChallenges, k: int|
                0 <= k < r@.len() ==> #[trigger] r@[k].eval(cur, next, ch)
                    == transition_constraint_values(cur, next, ch)[k],
            r@[0].degree_spec() == 2,
            r@[1].degree_spec() == 3,
            r@[2].degree_spec() == 4,
            r@[3].degree_spec() == 4,
            r@[4].degree_spec() == 4,
            r@[5].degree_spec() == 2,
    {
        let factor = clk_di_factor_circuit();
        let clk_di_is_zero_or_cdmo_inverse_or_osp_changes = times(factor, input(CLK_DI));
        let factor_again = clk_di_factor_circuit();
        let cdmo = diff_minus_one(CLK);
        let cdmo_is_zero_or_clkdi_inverse_or_osp_changes = times(factor_again, cdmo);
        let r = vec![
            osp_step_circuit(),
            osv_step_circuit(),
            clk_di_is_zero_or_cdmo_inverse_or_osp_changes,
            cdmo_is_zero_or_clkdi_inverse_or_osp_changes,
            clock_jump_update_circuit(),
            running_product_update_circuit(),
        ];
        proof {
            reveal_with_fuel(ConstraintCircuit::eval, 2);
            reveal_with_fuel(ConstraintCircuit::degree_spec, 2);
            assert forall|cur: Seq<XFieldElement>, next: Seq<XFieldElement>, ch: OpStackTableChallenges, k: int|
                0 <= k < r@.len() implies #[trigger] r@[k].eval(cur, next, ch)
                    == transition_constraint_values(cur, next, ch)[k] by {
                assert(r@[0].eval(cur, next, ch) == osp_step_value(cur, next));
                assert(r@[1].eval(cur, next, ch) == osv_step_value(cur, next));
                assert(factor.eval(cur, next, ch) == clk_di_factor(cur, next));
                assert(factor_again.eval(cur, next, ch) == clk_di_factor(cur, next));
                assert(cdmo.eval(cur, next, ch) == diff_minus_one_value(cur, next, CLK as int));
                assert(r@[2].eval(cur, next, ch) == clk_di_zero_or_inverse_value(cur, next));
                assert(r@[3].eval(cur, next, ch) == cdmo_zero_or_inverse_value(cur, next));
                assert(r@[4].eval(cur, next, ch) == clock_jump_update_value(cur, next, ch));
                assert(r@[5].eval(cur, next, ch) == running_product_update_value(cur, next, ch));
            }
        }
        r
    }
}

/// Extension is a function of the base rows and the challenges alone: two
/// extensions of the same rows under the same challenges are equal, and
/// their base columns are the base rows lifted to the extension field.
pub proof fn lemma_extension_is_deterministic(
    rows: Seq<Seq<BFieldElement>>,
    ch: OpStackTableChallenges,
    a: Seq<Seq<XFieldElement>>,
    b: Seq<Seq<XFieldElement>>,
)
    requires
        is_extension_of(rows, ch, a),
        is_extension_of(rows, ch, b),
    ensures
        a == b,
        forall|i: int, j: int|
            0 <= i < rows.len() && 0 <= j < BASE_WIDTH ==> #[trigger] a[i][j] == lift(rows[i][j]),
{
    assert(a =~= b);
    assert forall|i: int, j: int| 0 <= i < rows.len() && 0 <= j < BASE_WIDTH implies #[trigger] a[i][j]
        == lift(rows[i][j]) by {
        assert(a[i] == extension_row(rows, ch, i));
    }
}

/// On every two consecutive rows of an extension, the transition constraint
/// of the permutation argument's running product is zero.
pub proof fn lemma_running_product_transition_holds(
    rows: Seq<Seq<BFieldElement>>,
    ch: OpStackTableChallenges,
    ext: Seq<Seq<XFieldElement>>,
    i: int,
)
    requires
        is_extension_of(rows, ch, ext),
        0 <= i,
        i + 1 < rows.len(),
    ensures
        transition_constraint_values(ext[i], ext[i + 1], ch)[5] == XFieldElement::from_int(0),
{
    let cur = ext[i];
    let next = ext[i + 1];
    assert(cur == extension_row(rows, ch, i));
    assert(next == extension_row(rows, ch, i + 1));
    let row = rows[i + 1];
    assert(cell(next, CLK as int) == lift(row[CLK as int]));
    assert(cell(next, IB1 as int) == lift(row[IB1 as int]));
    assert(cell(next, OSP as int) == lift(row[OSP as int]));
    assert(cell(next, OSV as int) == lift(row[OSV as int]));
    lemma_mul_commutes(ch.clk_weight, lift(row[CLK as int]));
    lemma_mul_commutes(ch.ib1_weight, lift(row[IB1 as int]));
    lemma_mul_commutes(ch.osp_weight, lift(row[OSP as int]));
    lemma_mul_commutes(ch.osv_weight, lift(row[OSV as int]));
    assert(compressed_next_value(next, ch) == compress(row, ch));
    assert(cell(cur, RPPA as int) == running_product(rows, ch, i as nat));
    assert(cell(next, RPPA as int) == running_product(rows, ch, (i + 1) as nat));
    lemma_sub_self(cell(next, RPPA as int));
}

/// Where the first base row has clock 0, stack value 0 and stack pointer 16,
/// every initial constraint is zero on the first row of the extension.
pub proof fn lemma_initial_constraints_hold(
    rows: Seq<Seq<BFieldElement>>,
    ch: OpStackTableChallenges,
    ext: Seq<Seq<XFieldElement>>,
)
    requires
        is_extension_of(rows, ch, ext),
        rows.len() >= 1,
        base_row_wf(rows[0]),
        ch.wf(),
        rows[0][CLK as int].val() == 0,
        rows[0][OSV as int].val() == 0,
        rows[0][OSP as int].val() == OP_STACK_REG_COUNT,
    ensures
        forall|k: int|
            0 <= k < 5 ==> #[trigger] initial_constraint_values(ext[0], ch)[k]
                == XFieldElement::from_int(0),
{
    let cur = ext[0];
    let row = rows[0];
    let zero = XFieldElement::from_int(0);
    assert(cur == extension_row(rows, ch, 0));
    assert(16int % crate::field::modulus() == 16);
    assert(1int % crate::field::modulus() == 1);
    assert(cell(cur, CLK as int) == zero);
    assert(cell(cur, OSV as int) == zero);
    let sixteen = XFieldElement::from_int(16);
    assert(cell(cur, OSP as int) == sixteen);
    lemma_sub_self(sixteen);
    // the clock jump product starts at one
    assert(cell(cur, RPCJD as int) == XFieldElement::from_int(1));
    lemma_sub_self(XFieldElement::from_int(1));
    // the running product has taken the first row's factor
    let ib1 = lift(row[IB1 as int]);
    lemma_mul_zero_left(ch.clk_weight);
    lemma_mul_zero_left(ch.osv_weight);
    lemma_mul_commutes(ib1, ch.ib1_weight);
    lemma_mul_commutes(sixteen, ch.osp_weight);
    lemma_ops_wf(ib1, ch.ib1_weight);
    lemma_ops_wf(sixteen, ch.osp_weight);
    lemma_add_zero(ib1.mul_spec(ch.ib1_weight));
    let partial = ib1.mul_spec(ch.ib1_weight).add_spec(sixteen.mul_spec(ch.osp_weight));
    lemma_ops_wf(ib1.mul_spec(ch.ib1_weight), sixteen.mul_spec(ch.osp_weight));
    lemma_add_zero(partial);
    assert(compress(row, ch) == partial);
    let factor = ch.processor_perm_indeterminate.sub_spec(partial);
    lemma_ops_wf(ch.processor_perm_indeterminate, partial);
    lemma_mul_one_left(factor);
    assert(cell(cur, RPPA as int) == running_product(rows, ch, 0));
    assert(running_product(rows, ch, 0) == factor);
    lemma_sub_self(factor);
}

/// Between consecutive rows the stack pointer stays or grows by one.
pub open spec fn pointer_steps_by_at_most_one(s: Seq<ProcessorRow>) -> bool {
    forall|i: int|
        0 <= i < s.len() - 1 ==> #[trigger] s[i + 1].osp.val() == s[i].osp.val() || s[i
            + 1].osp.val() == s[i].osp.val() + 1
}

proof fn lemma_stack_grows_prefix(s: Seq<ProcessorRow>)
    requires
        s.len() > 0,
        stack_grows_by_at_most_one(s),
    ensures
        stack_grows_by_at_most_one(s.drop_last()),
        OP_STACK_REG_COUNT <= s.last().osp.val() <= OP_STACK_REG_COUNT + depth_count(s.drop_last()),
{
    let t = s.drop_last();
    assert forall|i: int| 0 <= i < t.len() implies OP_STACK_REG_COUNT <= #[trigger] t[i].osp.val()
        <= OP_STACK_REG_COUNT + depth_count(t.take(i)) by {
        assert(t.take(i) =~= s.take(i));
        assert(t[i] == s[i]);
    }
    assert(s.take(s.len() - 1) =~= t);
    assert(s[s.len() - 1] == s.last());
}

/// Every depth below `depth_count` holds a row.
proof fn lemma_every_depth_is_used(s: Seq<ProcessorRow>, k: int)
    requires
        stack_grows_by_at_most_one(s),
        0 <= k < depth_count(s),
    ensures
        rows_at_depth(s, k).len() > 0,
    decreases s.len(),
{
    let t = s.drop_last();
    let x = s.last();
    lemma_stack_grows_prefix(s);
    assert(s =~= t.push(x));
    lemma_rows_at_depth_push(t, x, k);
    if k < depth_count(t) {
        lemma_every_depth_is_used(t, k);
    }
}

/// The rows at one depth all have the pointer of that depth.
proof fn lemma_rows_at_depth_pointer(s: Seq<ProcessorRow>, k: int, i: int)
    requires
        0 <= i < rows_at_depth(s, k).len(),
    ensures
        rows_at_depth(s, k)[i].osp.val() == OP_STACK_REG_COUNT + k,
{
    s.lemma_filter_pred(|r: ProcessorRow| r.osp.val() == OP_STACK_REG_COUNT + k, i);
}

proof fn lemma_rows_below_depth_steps(s: Seq<ProcessorRow>, k: nat)
    requires
        stack_grows_by_at_most_one(s),
        k <= depth_count(s),
    ensures
        pointer_steps_by_at_most_one(rows_below_depth(s, k)),
        k > 0 ==> rows_below_depth(s, k).len() > 0 && rows_below_depth(s, k).last().osp.val()
            == OP_STACK_REG_COUNT + k - 1,
    decreases k,
{
    if k > 0 {
        let a = rows_below_depth(s, (k - 1) as nat);
        let b = rows_at_depth(s, k - 1);
        lemma_rows_below_depth_steps(s, (k - 1) as nat);
        lemma_every_depth_is_used(s, k - 1);
        let c = a + b;
        assert(rows_below_depth(s, k) == c);
        assert forall|i: int| 0 <= i < c.len() - 1 implies #[trigger] c[i + 1].osp.val()
            == c[i].osp.val() || c[i + 1].osp.val() == c[i].osp.val() + 1 by {
            if i + 1 < a.len() {
                assert(c[i] == a[i] && c[i + 1] == a[i + 1]);
            } else if i + 1 == a.len() {
                lemma_rows_at_depth_pointer(s, k - 1, 0);
                assert(c[i + 1] == b[0]);
            } else {
                lemma_rows_at_depth_pointer(s, k - 1, i - a.len());
                lemma_rows_at_depth_pointer(s, k - 1, i + 1 - a.len());
            }
        }
        lemma_rows_at_depth_pointer(s, k - 1, b.len() - 1);
        assert(c.last() == b[b.len() - 1]);
    }
}

/// Sorted by depth, consecutive rows' stack pointers stay or grow by one.
pub proof fn lemma_sorted_pointer_steps(s: Seq<ProcessorRow>)
    requires
        stack_grows_by_at_most_one(s),
    ensures
        pointer_steps_by_at_most_one(sorted_by_depth(s)),
{
    lemma_rows_below_depth_steps(s, depth_count(s));
}

/// Where the stack pointer stays or grows by one from a row to the next, the
/// stack pointer's transition constraint is zero on that row and the next one
/// of the extension.
pub proof fn lemma_stack_pointer_transition_holds(
    rows: Seq<Seq<BFieldElement>>,
    ch: OpStackTableChallenges,
    ext: Seq<Seq<XFieldElement>>,
    i: int,
)
    requires
        is_extension_of(rows, ch, ext),
        0 <= i,
        i + 1 < rows.len(),
        base_row_wf(rows[i]),
        base_row_wf(rows[i + 1]),
        rows[i + 1][OSP as int].val() == rows[i][OSP as int].val() || rows[i + 1][OSP as int].val()
            == rows[i][OSP as int].val() + 1,
    ensures
        transition_constraint_values(ext[i], ext[i + 1], ch)[0] == XFieldElement::from_int(0),
{
    let cur = ext[i];
    let next = ext[i + 1];
    assert(cur == extension_row(rows, ch, i));
    assert(next == extension_row(rows, ch, i + 1));
    assert(base_row_wf(rows[i]) && base_row_wf(rows[i + 1]));
    assert(rows[i][OSP as int].wf() && rows[i + 1][OSP as int].wf());
    let osp = cell(cur, OSP as int);
    let osp_next = cell(next, OSP as int);
    assert(osp == lift(rows[i][OSP as int]));
    assert(osp_next == lift(rows[i + 1][OSP as int]));
    let one = XFieldElement::from_int(1);
    assert(1int % crate::field::modulus() == 1);
    let first = osp_next.sub_spec(osp.add_spec(one));
    let second = osp_next.sub_spec(osp);
    if rows[i + 1][OSP as int].val() == rows[i][OSP as int].val() {
        assert(osp_next == osp);
        lemma_sub_self(osp);
        lemma_mul_commutes(first, second);
        lemma_mul_zero_left(first);
    } else {
        reveal(XFieldElement::add_spec);
        let v = rows[i][OSP as int].val();
        vstd::arithmetic::div_mod::lemma_small_mod((v + 1) as nat, crate::field::modulus() as nat);
        vstd::arithmetic::div_mod::lemma_small_mod(0, crate::field::modulus() as nat);
        assert(add_mod(v, 1) == v + 1);
        assert(add_mod(0, 0) == 0);
        assert(osp.add_spec(one) =~= osp_next);
        lemma_sub_self(osp_next);
        lemma_mul_zero_left(second);
    }
}

/// Where the stack pointer stays or grows by one from a row to the next, and,
/// if it stays, the row's inverse column is the inverse of
/// (next clock - clock - 1), or zero, as the trace filler sets it, both
/// transition constraints on the inverse column are zero on that row and the
/// next one of the extension.
pub proof fn lemma_clock_inverse_transitions_hold(
    rows: Seq<Seq<BFieldElement>>,
    ch: OpStackTableChallenges,
    ext: Seq<Seq<XFieldElement>>,
    i: int,
)
    requires
        is_extension_of(rows, ch, ext),
        0 <= i,
        i + 1 < rows.len(),
        base_row_wf(rows[i]),
        base_row_wf(rows[i + 1]),
        rows[i + 1][OSP as int].val() == rows[i][OSP as int].val() || rows[i + 1][OSP as int].val()
            == rows[i][OSP as int].val() + 1,
        rows[i + 1][OSP as int] == rows[i][OSP as int] ==> is_inverse_or_zero(
            clk_diff_minus_one(rows[i][CLK as int], rows[i + 1][CLK as int]),
            rows[i][CLK_DI as int].val(),
        ),
    ensures
        transition_constraint_values(ext[i], ext[i + 1], ch)[2] == XFieldElement::from_int(0),
        transition_constraint_values(ext[i], ext[i + 1], ch)[3] == XFieldElement::from_int(0),
{
    let cur = ext[i];
    let next = ext[i + 1];
    assert(cur == extension_row(rows, ch, i));
    assert(next == extension_row(rows, ch, i + 1));
    let clk = rows[i][CLK as int];
    let clk_next = rows[i + 1][CLK as int];
    let di = rows[i][CLK_DI as int];
    let one_b = BFieldElement { value: 1 };
    let zero = XFieldElement::from_int(0);
    assert(1int % crate::field::modulus() == 1);
    assert(0int % crate::field::modulus() == 0);
    assert(one() == lift(one_b));
    let diff = BFieldElement { value: sub_mod(clk_next.val(), clk.val()) as u64 };
    lemma_lift_sub(clk_next, clk);
    lemma_lift_sub(diff, one_b);
    let d = clk_diff_minus_one(clk, clk_next);
    let d_b = BFieldElement { value: d as u64 };
    let cdmo = diff_minus_one_value(cur, next, CLK as int);
    assert(cdmo == lift(d_b));
    lemma_lift_mul(di, d_b);
    let product = cell(cur, CLK_DI as int).mul_spec(cdmo);
    let factor = clk_di_factor(cur, next);
    let osp_changes = diff_minus_one_value(cur, next, OSP as int);
    let osp = rows[i][OSP as int];
    let osp_next = rows[i + 1][OSP as int];
    if osp_next.val() == osp.val() + 1 {
        // the pointer grows: the first factor vanishes
        lemma_lift_sub(osp_next, osp);
        let g = BFieldElement { value: sub_mod(osp_next.val(), osp.val()) as u64 };
        vstd::arithmetic::div_mod::lemma_small_mod(1, crate::field::modulus() as nat);
        assert(g == one_b);
        lemma_lift_sub(g, one_b);
        assert(osp_changes == zero);
        let inner = cell(cur, CLK_DI as int).mul_spec(cdmo).sub_spec(one());
        lemma_mul_zero_left(inner);
        assert(factor == zero);
        lemma_mul_zero_left(cell(cur, CLK_DI as int));
        lemma_mul_zero_left(cdmo);
    } else if d == 0 {
        assert(osp_next == osp);
        assert(cell(cur, CLK_DI as int) == zero);
        assert(cdmo == zero);
        lemma_mul_commutes(factor, zero);
        lemma_mul_zero_left(factor);
    } else {
        assert(osp_next == osp);
        assert((di.val() * d) == (d * di.val())) by (nonlinear_arith);
        assert(product == lift(one_b));
        lemma_sub_self(lift(one_b));
        lemma_mul_commutes(osp_changes, zero);
        lemma_mul_zero_left(osp_changes);
        assert(factor == zero);
        lemma_mul_zero_left(cell(cur, CLK_DI as int));
        lemma_mul_zero_left(cdmo);
    }
}

/// Where the stack pointer stays or grows by one from a row to the next, and,
/// if it stays, the clock changes and the row's inverse column is the inverse
/// of (next clock - clock - 1), or zero, the transition constraint of the
/// clock jump product is zero on that row and the next one of the extension.
#[verifier::rlimit(40)]
pub proof fn lemma_clock_jump_transition_holds(
    rows: Seq<Seq<BFieldElement>>,
    ch: OpStackTableChallenges,
    ext: Seq<Seq<XFieldElement>>,
    i: int,
)
    requires
        is_extension_of(rows, ch, ext),
        ch.wf(),
        0 <= i,
        i + 1 < rows.len(),
        base_row_wf(rows[i]),
        base_row_wf(rows[i + 1]),
        rows[i + 1][OSP as int].val() == rows[i][OSP as int].val() || rows[i + 1][OSP as int].val()
            == rows[i][OSP as int].val() + 1,
        rows[i + 1][OSP as int] == rows[i][OSP as int] ==> is_inverse_or_zero(
            clk_diff_minus_one(rows[i][CLK as int], rows[i + 1][CLK as int]),
            rows[i][CLK_DI as int].val(),
        ),
        rows[i + 1][OSP as int] == rows[i][OSP as int] ==> rows[i + 1][CLK as int]
            != rows[i][CLK as int],
    ensures
        transition_constraint_values(ext[i], ext[i + 1], ch)[4] == XFieldElement::from_int(0),
{
    let cur = ext[i];
    let next = ext[i + 1];
    assert(cur == extension_row(rows, ch, i));
    assert(next == extension_row(rows, ch, i + 1));
    let m = crate::field::modulus();
    let zero = XFieldElement::from_int(0);
    let one_b = BFieldElement { value: 1 };
    let zero_b = BFieldElement { value: 0 };
    assert(1int % m == 1);
    assert(0int % m == 0);
    assert(one() == lift(one_b));
    assert(zero == lift(zero_b));
    lemma_ops_wf(zero, zero);
    lemma_add_zero(zero);
    let clk = rows[i][CLK as int];
    let clk_next = rows[i + 1][CLK as int];
    let osp = rows[i][OSP as int];
    let osp_next = rows[i + 1][OSP as int];
    let di = rows[i][CLK_DI as int];
    let rp = cell(cur, RPCJD as int);
    let rp_next = cell(next, RPCJD as int);
    assert(rp == clock_jump_product(rows, ch, i as nat));
    assert(rp_next == clock_jump_product(rows, ch, (i + 1) as nat));
    // the clock difference minus one, and the product with its claimed inverse
    let t = sub_mod(clk_next.val(), clk.val());
    let t_b = BFieldElement { value: t as u64 };
    lemma_lift_sub(clk_next, clk);
    lemma_lift_sub(t_b, one_b);
    let d = clk_diff_minus_one(clk, clk_next);
    let d_b = BFieldElement { value: d as u64 };
    let cdmo = diff_minus_one_value(cur, next, CLK as int);
    assert(cdmo == lift(d_b));
    lemma_lift_mul(d_b, di);
    assert(clock_jump_difference(rows, i + 1) == lift(t_b));
    // (1 - osp') + osp
    lemma_sub_add_lift(one(), osp_next, osp);
    let osp_term = one().sub_spec(cell(next, OSP as int)).add_spec(cell(cur, OSP as int));
    let osp_diff = cell(next, OSP as int).sub_spec(cell(cur, OSP as int));
    lemma_lift_sub(osp_next, osp);
    let first = cdmo.mul_spec(osp_term).mul_spec(
        rp_next.sub_spec(
            rp.mul_spec(
                ch.all_clock_jump_differences_multi_perm_indeterminate.sub_spec(
                    cell(next, CLK as int),
                ).add_spec(cell(cur, CLK as int)),
            ),
        ),
    );
    let second = one().sub_spec(cdmo.mul_spec(cell(cur, CLK_DI as int))).mul_spec(
        rp_next.sub_spec(rp),
    );
    let third = osp_diff.mul_spec(rp_next.sub_spec(rp));
    assert(clock_jump_update_value(cur, next, ch) == first.add_spec(second).add_spec(third));
    if osp_next.val() == osp.val() + 1 {
        // the pointer moves: the product is carried over
        vstd::arithmetic::div_mod::lemma_small_mod(1, m as nat);
        assert(sub_mod(osp_next.val(), osp.val()) == 1);
        assert(osp_term == one().sub_spec(lift(one_b)));
        lemma_sub_self(one());
        assert(!has_clock_jump(rows, i + 1));
        assert(rp_next == rp);
        lemma_sub_self(rp);
        lemma_mul_commutes(cdmo, zero);
        lemma_mul_zero_left(cdmo);
        lemma_mul_zero_left(rp_next.sub_spec(rp.mul_spec(
            ch.all_clock_jump_differences_multi_perm_indeterminate.sub_spec(cell(next, CLK as int)).add_spec(
                cell(cur, CLK as int),
            ),
        )));
        let x = one().sub_spec(cdmo.mul_spec(cell(cur, CLK_DI as int)));
        lemma_mul_commutes(x, zero);
        lemma_mul_zero_left(x);
        lemma_mul_commutes(osp_diff, zero);
        lemma_mul_zero_left(osp_diff);
    } else {
        // the pointer stays
        assert(osp_next == osp);
        assert(sub_mod(osp_next.val(), osp.val()) == 0);
        assert(osp_term == one().sub_spec(zero));
        lemma_sub_zero(one());
        lemma_sub_self(cell(cur, OSP as int));
        assert(osp_diff == zero);
        lemma_mul_zero_left(rp_next.sub_spec(rp));
        assert(third == zero);
        if d == 0 {
            // no jump: the inverse column is zero and the product is carried over
            assert(t == 1) by {
                vstd::arithmetic::div_mod::lemma_small_mod(t as nat, m as nat);
                vstd::arithmetic::div_mod::lemma_mod_adds(t, -1, m);
            }
            assert(clock_jump_difference(rows, i + 1) == XFieldElement::from_int(1));
            assert(rp_next == rp);
            lemma_sub_self(rp);
            assert(cdmo == zero);
            lemma_mul_zero_left(osp_term);
            lemma_mul_zero_left(rp_next.sub_spec(rp.mul_spec(
                ch.all_clock_jump_differences_multi_perm_indeterminate.sub_spec(cell(next, CLK as int)).add_spec(
                    cell(cur, CLK as int),
                ),
            )));
            let x = one().sub_spec(cdmo.mul_spec(cell(cur, CLK_DI as int)));
            lemma_mul_commutes(x, zero);
            lemma_mul_zero_left(x);
        } else {
            // a jump: the inverse column makes the second term vanish and the
            // product takes the factor (beta - clock difference)
            assert(t != 1);
            assert(t != 0) by {
                assert(rows[i][CLK as int].wf() && rows[i + 1][CLK as int].wf());
                vstd::arithmetic::div_mod::lemma_small_mod(clk.val() as nat, m as nat);
                vstd::arithmetic::div_mod::lemma_small_mod(clk_next.val() as nat, m as nat);
                if t == 0 {
                    vstd::arithmetic::div_mod::lemma_mod_equivalence(clk_next.val(), clk.val(), m);
                    assert(clk_next.val() == clk.val());
                    assert(clk_next == clk);
                }
            }
            assert(has_clock_jump(rows, i + 1));
            let beta = ch.all_clock_jump_differences_multi_perm_indeterminate;
            lemma_sub_add_lift(beta, clk_next, clk);
            assert(rp_next == rp.mul_spec(beta.sub_spec(lift(t_b))));
            lemma_sub_self(rp_next);
            lemma_ops_wf(cdmo, osp_term);
            let y = cdmo.mul_spec(osp_term);
            lemma_mul_commutes(y, zero);
            lemma_mul_zero_left(y);
            assert(first == zero);
            assert((d * di.val()) == (di.val() * d)) by (nonlinear_arith);
            assert(cdmo.mul_spec(cell(cur, CLK_DI as int)) == lift(one_b));
            lemma_sub_self(one());
            lemma_mul_zero_left(rp_next.sub_spec(rp));
            assert(second == zero);
        }
    }
}

/// Rows `i` and `i + 1` relate as the transition constraints ask: the stack
/// pointer stays or grows by one, and where it stays, the inverse column of
/// row `i` is the inverse of (next clock - clock - 1), or zero.
pub open spec fn rows_step_validly(rows: Seq<Seq<BFieldElement>>, i: int) -> bool {
    &&& rows[i + 1][OSP as int].val() == rows[i][OSP as int].val() || rows[i + 1][OSP as int].val()
        == rows[i][OSP as int].val() + 1
    &&& rows[i + 1][OSP as int] == rows[i][OSP as int] ==> is_inverse_or_zero(
        clk_diff_minus_one(rows[i][CLK as int], rows[i + 1][CLK as int]),
        rows[i][CLK_DI as int].val(),
    )
}

/// Every clock is below the number of rows, and where the stack pointer
/// stays, the clock grows; so the row with the largest clock is the last
/// access at its depth.
pub open spec fn clocks_ordered(rows: Seq<Seq<BFieldElement>>) -> bool {
    &&& forall|i: int| 0 <= i < rows.len() ==> (#[trigger] rows[i])[CLK as int].val() < rows.len()
    &&& forall|i: int|
        0 <= i < rows.len() - 1 && rows[i + 1][OSP as int] == (#[trigger] rows[i])[OSP as int]
            ==> rows[i][CLK as int].val() < rows[i + 1][CLK as int].val()
}

/// Where the stack pointer stays from a row to the next, the clock changes.
pub open spec fn clocks_change_at_each_depth(rows: Seq<Seq<BFieldElement>>) -> bool {
    forall|i: int|
        0 <= i < rows.len() - 1 && rows[i + 1][OSP as int] == (#[trigger] rows[i])[OSP as int]
            ==> rows[i + 1][CLK as int] != rows[i][CLK as int]
}

/// Padding keeps every relation between consecutive rows that the transition
/// constraints check, and keeps all cells field elements.
pub proof fn lemma_padding_keeps_row_relations(
    rows: Seq<Seq<BFieldElement>>,
    padded: Seq<Seq<BFieldElement>>,
    t: int,
    h: int,
)
    requires
        forall|i: int| 0 <= i < rows.len() ==> base_row_wf(#[trigger] rows[i]),
        forall|i: int| 0 <= i < rows.len() - 1 ==> #[trigger] rows_step_validly(rows, i),
        clocks_ordered(rows),
        h >= rows.len(),
        is_template_index(rows, t),
        is_padding_of(rows, padded, t, h),
    ensures
        padded.len() == h,
        forall|i: int| 0 <= i < h ==> base_row_wf(#[trigger] padded[i]),
        forall|i: int| 0 <= i < h - 1 ==> #[trigger] rows_step_validly(padded, i),
        clocks_change_at_each_depth(padded),
{
    let n = rows.len() as int;
    let m = h - n;
    let c = rows[t][CLK as int].val();
    let modulus = crate::field::modulus();
    assert(base_row_wf(rows[t]));
    assert(rows[t][CLK as int].wf());
    vstd::arithmetic::div_mod::lemma_small_mod(c as nat, modulus as nat);
    vstd::arithmetic::div_mod::lemma_small_mod(0, modulus as nat);
    vstd::arithmetic::div_mod::lemma_small_mod(1, modulus as nat);
    // the template's successor, if any, lies one level up
    if t + 1 < n {
        assert(rows[t + 1][CLK as int].val() < n);
        assert(rows[t + 1][OSP as int] != rows[t][OSP as int]);
        assert(rows_step_validly(rows, t));
    }
    assert forall|i: int| 0 <= i < h implies base_row_wf(#[trigger] padded[i]) by {
        if i < t {
        } else if i <= t + m {
            assert(padded[i].len() == BASE_WIDTH);
            assert forall|j: int| 0 <= j < BASE_WIDTH implies #[trigger] padded[i][j].wf() by {
                if j == CLK_DI as int {
                    if !(i < t + m || m == 0 || t + 1 >= n) {
                        assert(i == t + m);
                    }
                } else if j == CLK as int {
                } else {
                    assert(rows[t][j].wf());
                }
            }
        } else {
            assert(base_row_wf(rows[i - m]));
        }
    }
    assert forall|i: int| 0 <= i < h - 1 implies #[trigger] rows_step_validly(padded, i) by {
        if i + 1 < t {
            assert(rows_step_validly(rows, i));
        } else if i + 1 == t {
            assert(rows_step_validly(rows, i));
            assert(padded[i + 1][CLK as int].val() == c);
            assert(padded[i + 1][CLK as int] == rows[t][CLK as int]);
        } else if i < t + m {
            // two copies of the template: the pointer stays and the clock grows by one
            let k = i - t;
            assert(padded[i][CLK as int].val() == add_mod(c, k));
            assert(padded[i + 1][CLK as int].val() == add_mod(c, k + 1));
            vstd::arithmetic::div_mod::lemma_sub_mod_noop(c + k + 1, c + k, modulus);
            assert(sub_mod(add_mod(c, k + 1), add_mod(c, k)) == 1);
            assert(clk_diff_minus_one(padded[i][CLK as int], padded[i + 1][CLK as int]) == 0);
            assert(padded[i][CLK_DI as int].val() == 0);
        } else if i == t + m {
            assert(t + 1 < n);
            assert(padded[i + 1] == rows[t + 1]);
            assert(padded[i + 1][OSP as int] != padded[i][OSP as int]);
        } else {
            assert(padded[i] == rows[i - m]);
            assert(padded[i + 1] == rows[i + 1 - m]);
            assert(rows_step_validly(rows, i - m));
        }
    }
    assert forall|i: int|
        0 <= i < padded.len() - 1 && padded[i + 1][OSP as int] == (#[trigger] padded[i])[OSP as int]
            implies padded[i + 1][CLK as int] != padded[i][CLK as int] by {
        if i + 1 < t {
        } else if i + 1 == t {
            assert(padded[i + 1][CLK as int].val() == c);
        } else if i < t + m {
            let k = i - t;
            vstd::arithmetic::div_mod::lemma_sub_mod_noop(c + k + 1, c + k, modulus);
            assert(sub_mod(add_mod(c, k + 1), add_mod(c, k)) == 1);
            assert(padded[i + 1][CLK as int].val() != padded[i][CLK as int].val());
        } else if i == t + m {
            assert(padded[i + 1] == rows[t + 1]);
        } else {
            assert(padded[i] == rows[i - m]);
            assert(padded[i + 1] == rows[i + 1 - m]);
        }
    }
}

/// `rows` holds the op-stack rows of `trace` as the trace filler writes them:
/// sorted by depth, with the inverse column of every row but the last set.
pub open spec fn is_filled_from(trace: Seq<ProcessorRow>, rows: Seq<Seq<BFieldElement>>) -> bool {
    let s = sorted_by_depth(trace);
    &&& rows.len() == trace.len()
    &&& forall|i: int|
        0 <= i < rows.len() ==> {
            &&& (#[trigger] rows[i])[CLK as int] == s[i].clk
            &&& rows[i][IB1 as int] == s[i].ib1
            &&& rows[i][OSP as int] == s[i].osp
            &&& rows[i][OSV as int] == s[i].osv
        }
    &&& forall|i: int|
        0 <= i < rows.len() - 1 ==> is_inverse_or_zero(
            clk_diff_minus_one(s[i].clk, s[i + 1].clk),
            (#[trigger] rows[i])[CLK_DI as int].val(),
        )
}

/// A table filled from a trace whose stack pointer grows by at most one per
/// step has every two consecutive rows relate as the transition constraints ask.
pub proof fn lemma_filled_rows_step_validly(trace: Seq<ProcessorRow>, rows: Seq<Seq<BFieldElement>>)
    requires
        stack_grows_by_at_most_one(trace),
        is_filled_from(trace, rows),
    ensures
        forall|i: int| 0 <= i < rows.len() - 1 ==> #[trigger] rows_step_validly(rows, i),
{
    lemma_sorted_pointer_steps(trace);
    assert forall|j: int| 0 <= j < trace.len() implies OP_STACK_REG_COUNT
        <= #[trigger] trace[j].osp.val() by {}
    lemma_sorted_by_depth_len(trace);
    let s = sorted_by_depth(trace);
    assert forall|i: int| 0 <= i < rows.len() - 1 implies #[trigger] rows_step_validly(rows, i) by {
        assert(rows[i][OSP as int] == s[i].osp);
        assert(rows[i + 1][OSP as int] == s[i + 1].osp);
        assert(rows[i + 1][CLK as int] == s[i + 1].clk);
        assert(rows[i][CLK as int] == s[i].clk);
    }
}

/// On the extension of rows that relate as the transition constraints ask,
/// every transition constraint but the one on the stack value is zero on
/// every two consecutive rows.
pub proof fn lemma_transitions_hold_on_valid_rows(
    rows: Seq<Seq<BFieldElement>>,
    ch: OpStackTableChallenges,
    ext: Seq<Seq<XFieldElement>>,
)
    requires
        forall|j: int| 0 <= j < rows.len() ==> base_row_wf(#[trigger] rows[j]),
        forall|j: int| 0 <= j < rows.len() - 1 ==> #[trigger] rows_step_validly(rows, j),
        clocks_change_at_each_depth(rows),
        is_extension_of(rows, ch, ext),
        ch.wf(),
    ensures
        forall|i: int, k: int|
            0 <= i < rows.len() - 1 && 0 <= k < 6 && k != 1 ==> #[trigger] transition_constraint_values(
                ext[i],
                ext[i + 1],
                ch,
            )[k] == XFieldElement::from_int(0),
{
    assert forall|i: int, k: int|
        0 <= i < rows.len() - 1 && 0 <= k < 6 && k != 1 implies #[trigger] transition_constraint_values(
            ext[i],
            ext[i + 1],
            ch,
        )[k] == XFieldElement::from_int(0) by {
        assert(rows_step_validly(rows, i));
        assert(base_row_wf(rows[i]) && base_row_wf(rows[i + 1]));
        if k == 0 {
            lemma_stack_pointer_transition_holds(rows, ch, ext, i);
        } else if k == 2 || k == 3 {
            lemma_clock_inverse_transitions_hold(rows, ch, ext, i);
        } else if k == 4 {
            lemma_clock_jump_transition_holds(rows, ch, ext, i);
        } else {
            lemma_running_product_transition_holds(rows, ch, ext, i);
        }
    }
}

/// On the extension of a table filled from a trace whose stack pointer grows
/// by at most one per step, and whose clock changes between accesses at one
/// depth, every transition constraint but the one on the stack value is zero
/// on every two consecutive rows.
pub proof fn lemma_filled_extension_transitions_hold(
    trace: Seq<ProcessorRow>,
    rows: Seq<Seq<BFieldElement>>,
    ch: OpStackTableChallenges,
    ext: Seq<Seq<XFieldElement>>,
)
    requires
        stack_grows_by_at_most_one(trace),
        is_filled_from(trace, rows),
        forall|j: int| 0 <= j < rows.len() ==> base_row_wf(#[trigger] rows[j]),
        clocks_change_at_each_depth(rows),
        is_extension_of(rows, ch, ext),
        ch.wf(),
    ensures
        forall|i: int, k: int|
            0 <= i < rows.len() - 1 && 0 <= k < 6 && k != 1 ==> #[trigger] transition_constraint_values(
                ext[i],
                ext[i + 1],
                ch,
            )[k] == XFieldElement::from_int(0),
{
    lemma_filled_rows_step_validly(trace, rows);
    lemma_transitions_hold_on_valid_rows(rows, ch, ext);
}

/// Padding keeps the constraints: where consecutive rows of a table relate as
/// the transition constraints ask and the largest clock marks the last access
/// at its depth, every transition constraint but the one on the stack value is
/// zero on every two consecutive rows of the padded table's extension; and
/// where the first row has clock 0, stack value 0 and pointer 16, so does
/// every initial constraint on its first row.
pub proof fn lemma_padded_extension_constraints_hold(
    rows: Seq<Seq<BFieldElement>>,
    padded: Seq<Seq<BFieldElement>>,
    t: int,
    h: int,
    ch: OpStackTableChallenges,
    ext: Seq<Seq<XFieldElement>>,
)
    requires
        forall|i: int| 0 <= i < rows.len() ==> base_row_wf(#[trigger] rows[i]),
        forall|i: int| 0 <= i < rows.len() - 1 ==> #[trigger] rows_step_validly(rows, i),
        clocks_ordered(rows),
        h >= rows.len(),
        is_template_index(rows, t),
        is_padding_of(rows, padded, t, h),
        is_extension_of(padded, ch, ext),
        ch.wf(),
    ensures
        forall|i: int, k: int|
            0 <= i < h - 1 && 0 <= k < 6 && k != 1 ==> #[trigger] transition_constraint_values(
                ext[i],
                ext[i + 1],
                ch,
            )[k] == XFieldElement::from_int(0),
        (rows[0][CLK as int].val() == 0 && rows[0][OSV as int].val() == 0
            && rows[0][OSP as int].val() == OP_STACK_REG_COUNT) ==> forall|k: int|
            0 <= k < 5 ==> #[trigger] initial_constraint_values(ext[0], ch)[k]
                == XFieldElement::from_int(0),
{
    lemma_padding_keeps_row_relations(rows, padded, t, h);
    lemma_transitions_hold_on_valid_rows(padded, ch, ext);
    if rows[0][CLK as int].val() == 0 && rows[0][OSV as int].val() == 0
        && rows[0][OSP as int].val() == OP_STACK_REG_COUNT {
        assert(base_row_wf(padded[0]));
        if t > 0 {
            assert(padded[0] == rows[0]);
        } else {
            vstd::arithmetic::div_mod::lemma_small_mod(0, crate::field::modulus() as nat);
            assert(padded[0][CLK as int].val() == add_mod(rows[0][CLK as int].val(), 0));
        }
        lemma_initial_constraints_hold(padded, ch, ext);
    }
}

/// The factor that a row contributes to the permutation argument.
pub open spec fn permutation_factor(row: Seq<BFieldElement>, ch: OpStackTableChallenges) -> XFieldElement {
    ch.processor_perm_indeterminate.sub_spec(compress(row, ch))
}

/// One times `f` of every item, in order.
pub open spec fn product_by<A>(s: Seq<A>, f: spec_fn(A) -> XFieldElement) -> XFieldElement
    decreases s.len(),
{
    if s.len() == 0 {
        XFieldElement::from_int(1)
    } else {
        product_by(s.drop_last(), f).mul_spec(f(s.last()))
    }
}

proof fn lemma_running_product_is_product(
    rows: Seq<Seq<BFieldElement>>,
    ch: OpStackTableChallenges,
    i: nat,
)
    requires
        i < rows.len(),
    ensures
        running_product(rows, ch, i) == product_by(
            rows.take((i + 1) as int),
            |r: Seq<BFieldElement>| permutation_factor(r, ch),
        ),
    decreases i,
{
    let f = |r: Seq<BFieldElement>| permutation_factor(r, ch);
    let s = rows.take((i + 1) as int);
    assert(s.last() == rows[i as int]);
    assert(s.len() > 0);
    assert(product_by(s, f) == product_by(s.drop_last(), f).mul_spec(f(s.last())));
    if i == 0 {
        assert(s.drop_last() =~= Seq::<Seq<BFieldElement>>::empty());
        assert(product_by(s.drop_last(), f) == XFieldElement::from_int(1));
    } else {
        lemma_running_product_is_product(rows, ch, (i - 1) as nat);
        assert(s.drop_last() =~= rows.take(((i - 1) + 1) as int));
    }
}

/// Taking one item's factor out of the product.
proof fn lemma_product_by_remove<A>(s: Seq<A>, f: spec_fn(A) -> XFieldElement, j: int)
    requires
        0 <= j < s.len(),
    ensures
        product_by(s, f) == product_by(s.remove(j), f).mul_spec(f(s[j])),
    decreases s.len(),
{
    if j == s.len() - 1 {
        assert(s.remove(j) =~= s.drop_last());
    } else {
        let d = s.drop_last();
        lemma_product_by_remove(d, f, j);
        let r = s.remove(j);
        assert(r.drop_last() =~= d.remove(j));
        assert(r.last() == s.last());
        let p = product_by(d.remove(j), f);
        let x = f(s[j]);
        let y = f(s.last());
        lemma_mul_associates(p, x, y);
        lemma_mul_associates(p, y, x);
        lemma_mul_commutes(x, y);
    }
}

/// The product does not depend on the order of the items.
pub proof fn lemma_product_by_permutation<A>(a: Seq<A>, b: Seq<A>, f: spec_fn(A) -> XFieldElement)
    requires
        a.to_multiset() == b.to_multiset(),
    ensures
        product_by(a, f) == product_by(b, f),
    decreases a.len(),
{
    a.to_multiset_ensures();
    b.to_multiset_ensures();
    if a.len() > 0 {
        let x = a.last();
        let d = a.drop_last();
        assert(a =~= d.push(x));
        d.to_multiset_ensures();
        assert(a.to_multiset().count(x) > 0);
        assert(b.contains(x));
        let j = choose|j: int| 0 <= j < b.len() && b[j] == x;
        assert(b.remove(j).to_multiset() == d.to_multiset()) by {
            assert(b.remove(j).to_multiset() =~= b.to_multiset().remove(x));
            assert(a.to_multiset() =~= d.to_multiset().insert(x));
            assert(d.to_multiset() =~= d.to_multiset().insert(x).remove(x));
        }
        lemma_product_by_permutation(d, b.remove(j), f);
        lemma_product_by_remove(b, f, j);
    }
}

/// Two tables whose rows are the same multiset, in any order, end with the
/// same running product of the permutation argument.
pub proof fn lemma_running_product_depends_on_rows_only(
    a: Seq<Seq<BFieldElement>>,
    b: Seq<Seq<BFieldElement>>,
    ch: OpStackTableChallenges,
)
    requires
        a.len() > 0,
        a.to_multiset() == b.to_multiset(),
    ensures
        b.len() == a.len(),
        running_product(a, ch, (a.len() - 1) as nat) == running_product(b, ch, (b.len() - 1) as nat),
{
    a.to_multiset_ensures();
    b.to_multiset_ensures();
    lemma_product_by_permutation(a, b, |r: Seq<BFieldElement>| permutation_factor(r, ch));
    lemma_running_product_is_product(a, ch, (a.len() - 1) as nat);
    lemma_running_product_is_product(b, ch, (b.len() - 1) as nat);
    assert(a.take(a.len() as int) =~= a);
    assert(b.take(b.len() as int) =~= b);
}

proof fn lemma_first_row_at_depth_zero(s: Seq<ProcessorRow>)
    requires
        s.len() > 0,
        s[0].osp.val() == OP_STACK_REG_COUNT,
    ensures
        rows_at_depth(s, 0).len() > 0,
        rows_at_depth(s, 0)[0] == s[0],
    decreases s.len(),
{
    let d = s.drop_last();
    assert(s =~= d.push(s.last()));
    lemma_rows_at_depth_push(d, s.last(), 0);
    if s.len() > 1 {
        assert(d[0] == s[0]);
        lemma_first_row_at_depth_zero(d);
    } else {
        assert(rows_at_depth(d, 0).len() == 0) by {
            assert(d =~= Seq::<ProcessorRow>::empty());
            reveal_with_fuel(Seq::filter, 1);
        }
    }
}

proof fn lemma_rows_below_depth_first(s: Seq<ProcessorRow>, k: nat)
    requires
        k >= 1,
        rows_at_depth(s, 0).len() > 0,
    ensures
        rows_below_depth(s, k).len() > 0,
        rows_below_depth(s, k)[0] == rows_at_depth(s, 0)[0],
    decreases k,
{
    if k > 1 {
        lemma_rows_below_depth_first(s, (k - 1) as nat);
    } else {
        assert(rows_below_depth(s, 0) =~= Seq::<ProcessorRow>::empty());
        assert(rows_below_depth(s, 1) =~= rows_at_depth(s, 0));
    }
}

/// Sorting by depth keeps a first row whose pointer is 16 in front.
pub proof fn lemma_sorted_by_depth_first(s: Seq<ProcessorRow>)
    requires
        s.len() > 0,
        s[0].osp.val() == OP_STACK_REG_COUNT,
    ensures
        sorted_by_depth(s).len() > 0,
        sorted_by_depth(s)[0] == s[0],
{
    lemma_first_row_at_depth_zero(s);
    assert(depth_count(s) >= 1) by {
        if depth_count(s) == 0 {
            lemma_no_rows_beyond_depth_count(s, 0);
        }
    }
    lemma_rows_below_depth_first(s, depth_count(s));
}

/// On the extension of a table filled from a trace whose first cycle has
/// clock 0, stack value 0 and stack pointer 16, every initial constraint is
/// zero on the first row.
pub proof fn lemma_filled_extension_initial_constraints_hold(
    trace: Seq<ProcessorRow>,
    rows: Seq<Seq<BFieldElement>>,
    ch: OpStackTableChallenges,
    ext: Seq<Seq<XFieldElement>>,
)
    requires
        trace.len() > 0,
        trace[0].clk.val() == 0,
        trace[0].osv.val() == 0,
        trace[0].osp.val() == OP_STACK_REG_COUNT,
        is_filled_from(trace, rows),
        rows.len() > 0 ==> base_row_wf(rows[0]),
        is_extension_of(rows, ch, ext),
        ch.wf(),
    ensures
        forall|k: int|
            0 <= k < 5 ==> #[trigger] initial_constraint_values(ext[0], ch)[k]
                == XFieldElement::from_int(0),
{
    lemma_sorted_by_depth_first(trace);
    assert(rows[0][CLK as int] == sorted_by_depth(trace)[0].clk);
    assert(rows[0][OSP as int] == sorted_by_depth(trace)[0].osp);
    assert(rows[0][OSV as int] == sorted_by_depth(trace)[0].osv);
    lemma_initial_constraints_hold(rows, ch, ext);
}

proof fn lemma_rows_below_depth_push_multiset(s: Seq<ProcessorRow>, x: ProcessorRow, k: nat)
    ensures
        rows_below_depth(s.push(x), k).to_multiset() == if OP_STACK_REG_COUNT <= x.osp.val()
            < OP_STACK_REG_COUNT + k {
            rows_below_depth(s, k).to_multiset().insert(x)
        } else {
            rows_below_depth(s, k).to_multiset()
        },
    decreases k,
{
    broadcast use vstd::seq_lib::lemma_multiset_commutative;
    if k == 0 {
    } else {
        lemma_rows_below_depth_push_multiset(s, x, (k - 1) as nat);
        lemma_rows_at_depth_push(s, x, k - 1);
        let a = rows_at_depth(s, k - 1);
        a.to_multiset_ensures();
        let p = rows_below_depth(s, (k - 1) as nat);
        assert(rows_below_depth(s.push(x), k).to_multiset() =~= rows_below_depth(
            s.push(x),
            (k - 1) as nat,
        ).to_multiset().add(rows_at_depth(s.push(x), k - 1).to_multiset()));
        assert(rows_below_depth(s, k).to_multiset() =~= p.to_multiset().add(a.to_multiset()));
    }
}

/// Sorting by depth keeps every row of a trace whose stack pointer grows by
/// at most one per step: the sorted rows are a permutation of the trace.
pub proof fn lemma_sorted_by_depth_is_permutation(s: Seq<ProcessorRow>)
    requires
        stack_grows_by_at_most_one(s),
    ensures
        sorted_by_depth(s).to_multiset() == s.to_multiset(),
    decreases s.len(),
{
    s.to_multiset_ensures();
    if s.len() == 0 {
        assert(sorted_by_depth(s) =~= Seq::<ProcessorRow>::empty());
        assert(s.to_multiset() =~= vstd::multiset::Multiset::empty());
        Seq::<ProcessorRow>::empty().to_multiset_ensures();
        assert(Seq::<ProcessorRow>::empty().to_multiset() =~= vstd::multiset::Multiset::empty());
    } else {
        let d = s.drop_last();
        let x = s.last();
        lemma_stack_grows_prefix(s);
        lemma_sorted_by_depth_is_permutation(d);
        assert(s =~= d.push(x));
        d.to_multiset_ensures();
        lemma_rows_below_depth_push_multiset(d, x, depth_count(s));
        lemma_rows_below_depth_beyond(d, depth_count(s));
    }
}

/// The factor that a processor cycle contributes to the permutation argument.
pub open spec fn processor_factor(p: ProcessorRow, ch: OpStackTableChallenges) -> XFieldElement {
    ch.processor_perm_indeterminate.sub_spec(
        lift(p.clk).mul_spec(ch.clk_weight).add_spec(lift(p.ib1).mul_spec(ch.ib1_weight)).add_spec(
            lift(p.osp).mul_spec(ch.osp_weight),
        ).add_spec(lift(p.osv).mul_spec(ch.osv_weight)),
    )
}

proof fn lemma_product_matches(
    rows: Seq<Seq<BFieldElement>>,
    procs: Seq<ProcessorRow>,
    ch: OpStackTableChallenges,
)
    requires
        rows.len() == procs.len(),
        forall|i: int|
            0 <= i < rows.len() ==> permutation_factor(#[trigger] rows[i], ch) == processor_factor(
                procs[i],
                ch,
            ),
    ensures
        product_by(rows, |r: Seq<BFieldElement>| permutation_factor(r, ch)) == product_by(
            procs,
            |p: ProcessorRow| processor_factor(p, ch),
        ),
    decreases rows.len(),
{
    if rows.len() > 0 {
        let n = rows.len() - 1;
        assert(permutation_factor(rows[n], ch) == processor_factor(procs[n], ch));
        lemma_product_matches(rows.drop_last(), procs.drop_last(), ch);
    }
}

/// The permutation argument's last running product on a table filled from a
/// trace whose stack pointer grows by at most one per step is the processor's
/// running product over the same cycles, taken in cycle order.
pub proof fn lemma_filled_running_product_is_processor_product(
    trace: Seq<ProcessorRow>,
    rows: Seq<Seq<BFieldElement>>,
    ch: OpStackTableChallenges,
)
    requires
        trace.len() > 0,
        stack_grows_by_at_most_one(trace),
        is_filled_from(trace, rows),
    ensures
        running_product(rows, ch, (rows.len() - 1) as nat) == product_by(
            trace,
            |p: ProcessorRow| processor_factor(p, ch),
        ),
{
    let sorted = sorted_by_depth(trace);
    assert forall|j: int| 0 <= j < trace.len() implies OP_STACK_REG_COUNT
        <= #[trigger] trace[j].osp.val() by {}
    lemma_sorted_by_depth_len(trace);
    assert forall|i: int| 0 <= i < rows.len() implies permutation_factor(#[trigger] rows[i], ch)
        == processor_factor(sorted[i], ch) by {}
    lemma_product_matches(rows, sorted, ch);
    lemma_sorted_by_depth_is_permutation(trace);
    lemma_product_by_permutation(sorted, trace, |p: ProcessorRow| processor_factor(p, ch));
    lemma_running_product_is_product(rows, ch, (rows.len() - 1) as nat);
    assert(rows.take(rows.len() as int) =~= rows);
}

} // verus!
