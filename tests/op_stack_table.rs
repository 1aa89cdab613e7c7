use triton_vm::constraint_circuit::ConstraintCircuit;
use triton_vm::field::{BFieldElement, XFieldElement, P};
use triton_vm::op_stack_table::{
    AlgebraicExecutionTrace, ExtOpStackTable, OpStackBaseTableColumn, OpStackExtTableColumn,
    OpStackTable, OpStackTableChallengeId, OpStackTableChallenges, ProcessorRow, BASE_WIDTH, CLK,
    CLK_DI, IB1, OSP, OSV, RPCJD, RPPA,
};

fn b(v: u64) -> BFieldElement {
    BFieldElement::new(v)
}

fn x(c0: u64, c1: u64, c2: u64) -> XFieldElement {
    XFieldElement { c0: b(c0), c1: b(c1), c2: b(c2) }
}

fn prow(clk: u64, ib1: u64, osp: u64, osv: u64) -> ProcessorRow {
    ProcessorRow { clk: b(clk), ib1: b(ib1), osp: b(osp), osv: b(osv) }
}

fn challenges() -> OpStackTableChallenges {
    OpStackTableChallenges {
        processor_perm_indeterminate: x(1234, 56, 7),
        clk_weight: x(11, 12, 13),
        ib1_weight: x(21, 22, 23),
        osv_weight: x(31, 32, 33),
        osp_weight: x(41, 42, 43),
        all_clock_jump_differences_multi_perm_indeterminate: x(987, 65, 4),
    }
}

fn zero_matrix(rows: usize) -> Vec<Vec<BFieldElement>> {
    vec![vec![b(0); BASE_WIDTH]; rows]
}

/// The stack pointer goes 16, 17, 17, 16 over clocks 0 to 3.
fn scenario_trace() -> AlgebraicExecutionTrace {
    AlgebraicExecutionTrace {
        processor_matrix: vec![
            prow(0, 0, 16, 0),
            prow(1, 0, 17, 5),
            prow(2, 1, 17, 5),
            prow(3, 1, 16, 0),
        ],
    }
}

fn filled(aet: &AlgebraicExecutionTrace) -> Vec<Vec<BFieldElement>> {
    let mut m = zero_matrix(aet.processor_matrix.len());
    OpStackTable::fill_trace(&mut m, aet);
    m
}

fn neg(v: u64) -> u64 {
    P - v
}

fn assert_all_constraints_hold(ext: &ExtOpStackTable, ch: &OpStackTableChallenges) {
    let zero = XFieldElement::zero();
    let empty: Vec<XFieldElement> = vec![];
    let first = &ext.data[0];
    for c in ExtOpStackTable::ext_initial_constraints_as_circuits() {
        assert_eq!(zero, c.evaluate(first, &empty, ch));
    }
    for row in ext.data.iter() {
        for c in ExtOpStackTable::ext_consistency_constraints_as_circuits() {
            assert_eq!(zero, c.evaluate(row, &empty, ch));
        }
    }
    for pair in ext.data.windows(2) {
        for c in ExtOpStackTable::ext_transition_constraints_as_circuits() {
            assert_eq!(zero, c.evaluate(&pair[0], &pair[1], ch));
        }
    }
    let last = &ext.data[ext.data.len() - 1];
    for c in ExtOpStackTable::ext_terminal_constraints_as_circuits() {
        assert_eq!(zero, c.evaluate(last, &empty, ch));
    }
}

#[test]
fn field_arithmetic_reduces_modulo_the_prime() {
    assert_eq!(0, b(P).value);
    assert_eq!(5, b(P + 5).value);
    assert_eq!(0, b(P - 1).add(b(1)).value);
    assert_eq!(P - 1, b(0).sub(b(1)).value);
    assert_eq!(P - 2, b(P - 1).mul(b(2)).value);
    assert_eq!(0, b(0).inverse_or_zero().value);
    let half = b(2).inverse_or_zero();
    assert_eq!(9223372034707292161, half.value);
    assert_eq!(1, half.mul(b(2)).value);
    let inv = b(123456789).inverse_or_zero();
    assert_eq!(1, inv.mul(b(123456789)).value);
}

#[test]
fn extension_field_multiplies_modulo_the_shah_polynomial() {
    // x * x^2 = x^3 = x - 1
    let r = x(0, 1, 0).mul(x(0, 0, 1));
    assert_eq!(x(neg(1), 1, 0), r);
    // x^2 * x^2 = x^4 = x^2 - x
    let r = x(0, 0, 1).mul(x(0, 0, 1));
    assert_eq!(x(0, neg(1), 1), r);
    assert_eq!(x(6, 0, 0), x(2, 0, 0).mul(x(3, 0, 0)));
    assert_eq!(x(5, 7, 9), x(1, 2, 3).add(x(4, 5, 6)));
    assert_eq!(x(neg(3), neg(3), neg(3)), x(1, 2, 3).sub(x(4, 5, 6)));
    assert!(XFieldElement::one().equals(b(1).lift()));
    assert!(!XFieldElement::one().equals(XFieldElement::zero()));
}

#[test]
fn column_and_challenge_indices_are_dense() {
    assert_eq!(0, OpStackBaseTableColumn::CLK.index());
    assert_eq!(1, OpStackBaseTableColumn::IB1ShrinkStack.index());
    assert_eq!(2, OpStackBaseTableColumn::OSP.index());
    assert_eq!(3, OpStackBaseTableColumn::OSV.index());
    assert_eq!(4, OpStackBaseTableColumn::InverseOfClkDiffMinusOne.index());
    assert_eq!(5, OpStackExtTableColumn::RunningProductPermArg.index());
    assert_eq!(6, OpStackExtTableColumn::AllClockJumpDifferencesPermArg.index());
    assert_eq!(0, OpStackTableChallengeId::ProcessorPermIndeterminate.index());
    assert_eq!(5, OpStackTableChallengeId::AllClockJumpDifferencesMultiPermIndeterminate.index());
    let ch = challenges();
    assert_eq!(ch.clk_weight, ch.get_challenge(OpStackTableChallengeId::ClkWeight));
    assert_eq!(ch.ib1_weight, ch.get_challenge(OpStackTableChallengeId::Ib1Weight));
    assert_eq!(ch.osv_weight, ch.get_challenge(OpStackTableChallengeId::OsvWeight));
    assert_eq!(ch.osp_weight, ch.get_challenge(OpStackTableChallengeId::OspWeight));
    assert_eq!(
        ch.processor_perm_indeterminate,
        ch.get_challenge(OpStackTableChallengeId::ProcessorPermIndeterminate)
    );
}

#[test]
fn fill_trace_sorts_by_stack_pointer_then_clock() {
    let m = filled(&scenario_trace());
    let clks: Vec<u64> = m.iter().map(|r| r[CLK].value).collect();
    let osps: Vec<u64> = m.iter().map(|r| r[OSP].value).collect();
    let osvs: Vec<u64> = m.iter().map(|r| r[OSV].value).collect();
    let ib1s: Vec<u64> = m.iter().map(|r| r[IB1].value).collect();
    assert_eq!(vec![0, 3, 1, 2], clks);
    assert_eq!(vec![16, 16, 17, 17], osps);
    assert_eq!(vec![0, 0, 5, 5], osvs);
    assert_eq!(vec![0, 1, 0, 1], ib1s);
}

#[test]
fn fill_trace_sets_inverse_of_clock_difference_minus_one() {
    let m = filled(&scenario_trace());
    // clk 0 -> clk 3: inverse(2), not the zero sentinel
    assert_eq!(9223372034707292161, m[0][CLK_DI].value);
    assert_eq!(b(2).inverse_or_zero(), m[0][CLK_DI]);
    // clk 3 -> clk 1: inverse(-3)
    assert_eq!(1, m[1][CLK_DI].mul(b(neg(3))).value);
    // clk 1 -> clk 2: inverse(0) is zero
    assert_eq!(0, m[2][CLK_DI].value);
    // the last row is left as it was
    assert_eq!(0, m[3][CLK_DI].value);
}

#[test]
fn fill_trace_leaves_rows_after_the_trace() {
    let mut m = zero_matrix(6);
    m[4][CLK] = b(99);
    m[5][CLK_DI] = b(7);
    OpStackTable::fill_trace(&mut m, &scenario_trace());
    assert_eq!(6, m.len());
    assert_eq!(99, m[4][CLK].value);
    assert_eq!(7, m[5][CLK_DI].value);
    assert_eq!(0, m[3][CLK_DI].value);
    assert_eq!(2, m[3][CLK].value);
}

#[test]
fn pad_inserts_copies_after_the_row_with_the_largest_clock() {
    let mut t = OpStackTable::new(filled(&scenario_trace()));
    t.pad(8);
    assert_eq!(8, t.data.len());
    let clks: Vec<u64> = t.data.iter().map(|r| r[CLK].value).collect();
    assert_eq!(vec![0, 3, 4, 5, 6, 7, 1, 2], clks);
    let osps: Vec<u64> = t.data.iter().map(|r| r[OSP].value).collect();
    assert_eq!(vec![16, 16, 16, 16, 16, 16, 17, 17], osps);
    for i in 1..5 {
        assert_eq!(0, t.data[i][CLK_DI].value);
        assert_eq!(1, t.data[i][IB1].value);
    }
    // clk 7 -> clk 1: inverse(-7)
    assert_eq!(1, t.data[5][CLK_DI].mul(b(neg(7))).value);
    assert_eq!(9223372034707292161, t.data[0][CLK_DI].value);
}

#[test]
fn pad_to_the_same_height_only_clears_the_template_inverse() {
    let mut t = OpStackTable::new_prover(filled(&scenario_trace()));
    let before = t.data.clone();
    t.pad(4);
    assert_eq!(4, t.data.len());
    assert_eq!(before[0], t.data[0]);
    assert_eq!(0, t.data[1][CLK_DI].value);
    assert_eq!(before[2], t.data[2]);
    assert_eq!(before[3], t.data[3]);
}

#[test]
fn pad_reaches_every_power_of_two() {
    for h in [4usize, 8, 16, 32, 64] {
        let mut t = OpStackTable::new(filled(&scenario_trace()));
        t.pad(h);
        assert_eq!(h, t.data.len());
    }
}

#[test]
fn padded_table_keeps_all_constraints() {
    let ch = challenges();
    let mut t = OpStackTable::new(filled(&scenario_trace()));
    t.pad(16);
    let ext = t.extend(&ch);
    assert_all_constraints_hold(&ext, &ch);
}

#[test]
fn extension_of_valid_trace_satisfies_all_constraints() {
    let ch = challenges();
    let t = OpStackTable::new(filled(&scenario_trace()));
    let ext = t.extend(&ch);
    assert_eq!(4, ext.data.len());
    assert_all_constraints_hold(&ext, &ch);
}

#[test]
fn extend_is_deterministic_and_keeps_base_columns() {
    let ch = challenges();
    let t = OpStackTable::new(filled(&scenario_trace()));
    let a = t.extend(&ch);
    let c = t.extend(&ch);
    assert_eq!(a.data, c.data);
    for (ext_row, base_row) in a.data.iter().zip(t.data.iter()) {
        assert_eq!(7, ext_row.len());
        for j in 0..BASE_WIDTH {
            assert_eq!(base_row[j].lift(), ext_row[j]);
        }
    }
}

#[test]
fn extend_accumulates_running_products() {
    let ch = challenges();
    let t = OpStackTable::new(filled(&scenario_trace()));
    let ext = t.extend(&ch);
    let mut rp = XFieldElement::one();
    for row in t.data.iter() {
        let compressed = row[CLK].lift().mul(ch.clk_weight)
            .add(row[IB1].lift().mul(ch.ib1_weight))
            .add(row[OSP].lift().mul(ch.osp_weight))
            .add(row[OSV].lift().mul(ch.osv_weight));
        rp = rp.mul(ch.processor_perm_indeterminate.sub(compressed));
    }
    assert_eq!(rp, ext.data[3][RPPA]);
    // only clk 0 -> clk 3 at pointer 16 jumps: one factor (beta - 3)
    let beta = ch.all_clock_jump_differences_multi_perm_indeterminate;
    let expected = XFieldElement::one().mul(beta.sub(b(3).lift()));
    assert_eq!(XFieldElement::one(), ext.data[0][RPCJD]);
    assert_eq!(expected, ext.data[1][RPCJD]);
    assert_eq!(expected, ext.data[2][RPCJD]);
    assert_eq!(expected, ext.data[3][RPCJD]);
}

#[test]
fn permuted_rows_give_the_same_final_running_product() {
    let ch = challenges();
    let a = OpStackTable::new(filled(&scenario_trace()));
    let mut rows = a.data.clone();
    rows.reverse();
    let c = OpStackTable::new(rows);
    let ea = a.extend(&ch);
    let ec = c.extend(&ch);
    assert_eq!(ea.data[3][RPPA], ec.data[3][RPPA]);
}

#[test]
fn tampered_row_changes_the_final_running_product() {
    let ch = challenges();
    let a = OpStackTable::new(filled(&scenario_trace()));
    let mut rows = a.data.clone();
    rows[2][OSV] = b(6);
    let c = OpStackTable::new(rows);
    let ea = a.extend(&ch);
    let ec = c.extend(&ch);
    assert_ne!(ea.data[3][RPPA], ec.data[3][RPPA]);
}

#[test]
fn single_row_table_satisfies_initial_and_terminal_constraints() {
    let ch = challenges();
    let aet = AlgebraicExecutionTrace { processor_matrix: vec![prow(0, 0, 16, 0)] };
    let t = OpStackTable::new(filled(&aet));
    let ext = t.extend(&ch);
    assert_eq!(1, ext.data.len());
    assert_eq!(XFieldElement::one(), ext.data[0][RPCJD]);
    assert_all_constraints_hold(&ext, &ch);
}

#[test]
fn initial_constraints_detect_a_wrong_first_row() {
    let ch = challenges();
    let aet = AlgebraicExecutionTrace { processor_matrix: vec![prow(0, 0, 16, 3)] };
    let ext = OpStackTable::new(filled(&aet)).extend(&ch);
    let empty: Vec<XFieldElement> = vec![];
    let cs = ExtOpStackTable::ext_initial_constraints_as_circuits();
    assert_eq!(b(3).lift(), cs[1].evaluate(&ext.data[0], &empty, &ch));
}

#[test]
fn transition_constraints_detect_a_skipped_pointer() {
    let ch = challenges();
    let mut cur = vec![XFieldElement::zero(); 7];
    let mut next = vec![XFieldElement::zero(); 7];
    cur[OSP] = b(16).lift();
    next[OSP] = b(18).lift();
    let cs = ExtOpStackTable::ext_transition_constraints_as_circuits();
    // (18 - 17) * (18 - 16) = 2
    assert_eq!(b(2).lift(), cs[0].evaluate(&cur, &next, &ch));
}

#[test]
fn constraint_degrees_are_pinned() {
    let initial: Vec<usize> =
        ExtOpStackTable::ext_initial_constraints_as_circuits().iter().map(|c| c.degree()).collect();
    assert_eq!(vec![1, 1, 1, 1, 1], initial);
    let transition: Vec<usize> = ExtOpStackTable::ext_transition_constraints_as_circuits()
        .iter()
        .map(|c| c.degree())
        .collect();
    assert_eq!(vec![2, 3, 4, 4, 4, 2], transition);
    assert_eq!(0, ExtOpStackTable::ext_consistency_constraints_as_circuits().len());
    assert_eq!(0, ExtOpStackTable::ext_terminal_constraints_as_circuits().len());
}

#[test]
fn circuit_inputs_out_of_range_read_zero() {
    let ch = challenges();
    let c = ConstraintCircuit::Input { column: 9, next_row: false };
    let row = vec![XFieldElement::one(); 7];
    assert_eq!(XFieldElement::zero(), c.evaluate(&row, &row, &ch));
    let c = ConstraintCircuit::Input { column: 2, next_row: true };
    let next = vec![b(4).lift(); 7];
    assert_eq!(b(4).lift(), c.evaluate(&row, &next, &ch));
}

#[test]
fn verifier_and_default_tables_are_empty() {
    assert_eq!(0, OpStackTable::for_verifier().data.len());
    assert_eq!(0, ExtOpStackTable::default().data.len());
    assert_eq!(0, ExtOpStackTable::new(vec![]).data.len());
}

#[test]
fn repeated_clock_at_one_depth_adds_no_clock_jump_factor() {
    let zero = x(0, 0, 0);
    let ch = OpStackTableChallenges {
        processor_perm_indeterminate: zero,
        clk_weight: zero,
        ib1_weight: zero,
        osv_weight: zero,
        osp_weight: zero,
        all_clock_jump_differences_multi_perm_indeterminate: zero,
    };
    let mut rows = zero_matrix(2);
    rows[0][OSP] = b(16);
    rows[1][OSP] = b(16);
    let ext = OpStackTable::new(rows).extend(&ch);
    assert_eq!(XFieldElement::one(), ext.data[1][RPCJD]);
}

#[test]
fn challenge_ids_convert_to_their_index() {
    assert_eq!(2usize, usize::from(OpStackTableChallengeId::Ib1Weight));
    assert_eq!(4usize, usize::from(OpStackTableChallengeId::OspWeight));
}
