use bfc::ir::build_ir;
use bfc::ir::Atom;
use bfc::opt::add_multiply;
use bfc::opt::clean;
use bfc::opt::combine;
use bfc::opt::offset_op;
use bfc::opt::reorder;
use bfc::opt::run_opts;
use bfc::opt::zero_loops;

#[test]
fn combine_merges_increments() {
    let ir = vec![Atom::IncValue(3, 0), Atom::IncValue(-1, 0)];
    assert_eq!(combine(ir), vec![Atom::IncValue(2, 0)]);
}

#[test]
fn combine_folds_increment_into_store() {
    let ir = vec![Atom::SetValue(5, 0), Atom::IncValue(2, 0)];
    assert_eq!(combine(ir), vec![Atom::SetValue(7, 0)]);
}

#[test]
fn combine_drops_dead_writes() {
    let ir = vec![Atom::IncValue(9, 4), Atom::SetValue(1, 4), Atom::SetValue(2, 4)];
    assert_eq!(combine(ir), vec![Atom::SetValue(2, 4)]);
}

#[test]
fn combine_merges_moves_with_wraparound() {
    let ir = vec![Atom::MovePtr(isize::MAX), Atom::MovePtr(1)];
    assert_eq!(combine(ir), vec![Atom::MovePtr(isize::MIN)]);
}

#[test]
fn combine_wraps_values() {
    let ir = vec![Atom::SetValue(250, 1), Atom::IncValue(10, 1), Atom::IncValue(-128, 2), Atom::IncValue(-1, 2)];
    assert_eq!(combine(ir), vec![Atom::SetValue(4, 1), Atom::IncValue(127, 2)]);
}

#[test]
fn combine_keeps_writes_to_other_offsets() {
    let ir = vec![Atom::IncValue(1, 0), Atom::IncValue(1, 1), Atom::SetValue(3, 0)];
    assert_eq!(combine(ir.clone()), ir);
}

#[test]
fn combine_collapses_a_chain_and_goes_into_loops() {
    let ir = vec![
        Atom::MovePtr(1),
        Atom::MovePtr(1),
        Atom::MovePtr(-2),
        Atom::Loop(vec![Atom::IncValue(1, 0), Atom::IncValue(1, 0), Atom::Print(0), Atom::Print(0)]),
    ];
    assert_eq!(
        combine(ir),
        vec![Atom::MovePtr(0), Atom::Loop(vec![Atom::IncValue(2, 0), Atom::Print(0), Atom::Print(0)])]
    );
}

#[test]
fn clean_removes_what_has_no_effect() {
    let ir = vec![
        Atom::MovePtr(0),
        Atom::IncValue(0, 7),
        Atom::SetValue(0, 0),
        Atom::Multiply(0, 1),
        Atom::Loop(vec![Atom::MovePtr(0), Atom::MovePtr(2)]),
    ];
    assert_eq!(
        clean(ir),
        vec![Atom::SetValue(0, 0), Atom::Multiply(0, 1), Atom::Loop(vec![Atom::MovePtr(2)])]
    );
}

#[test]
fn zero_loops_replaces_a_countdown() {
    let ir = vec![Atom::Loop(vec![Atom::IncValue(-1, 0)])];
    assert_eq!(zero_loops(ir), vec![Atom::SetValue(0, 0)]);
}

#[test]
fn zero_loops_works_from_the_inside() {
    let ir = vec![Atom::Loop(vec![Atom::Loop(vec![Atom::IncValue(-1, 0)])])];
    assert_eq!(zero_loops(ir), vec![Atom::Loop(vec![Atom::SetValue(0, 0)])]);
}

#[test]
fn zero_loops_keeps_other_loops() {
    let ir = vec![
        Atom::Loop(vec![Atom::IncValue(1, 0)]),
        Atom::Loop(vec![Atom::IncValue(-1, 1)]),
        Atom::Loop(vec![]),
        Atom::Loop(vec![Atom::IncValue(-1, 0), Atom::IncValue(-1, 0)]),
    ];
    assert_eq!(zero_loops(ir.clone()), ir);
}

#[test]
fn optimizing_a_countdown_gives_a_store() {
    let ir = vec![Atom::Loop(vec![Atom::IncValue(-1, 0)])];
    assert_eq!(run_opts(ir), vec![Atom::SetValue(0, 0)]);
}

#[test]
fn offset_op_folds_moves_into_offsets() {
    let ir = vec![
        Atom::MovePtr(2),
        Atom::IncValue(1, 0),
        Atom::MovePtr(-3),
        Atom::SetValue(9, 1),
        Atom::Print(0),
        Atom::Read(5),
    ];
    assert_eq!(
        offset_op(ir),
        vec![
            Atom::IncValue(1, 2),
            Atom::SetValue(9, 0),
            Atom::Print(-1),
            Atom::Read(4),
            Atom::MovePtr(-1),
        ]
    );
}

#[test]
fn offset_op_flushes_before_loops_and_multiplications() {
    let ir = vec![
        Atom::MovePtr(1),
        Atom::Multiply(2, 3),
        Atom::IncValue(1, 0),
        Atom::Loop(vec![Atom::MovePtr(1), Atom::Print(0)]),
    ];
    assert_eq!(
        offset_op(ir),
        vec![
            Atom::MovePtr(1),
            Atom::Multiply(2, 3),
            Atom::IncValue(1, 0),
            Atom::MovePtr(0),
            Atom::Loop(vec![Atom::Print(1), Atom::MovePtr(1)]),
            Atom::MovePtr(0),
        ]
    );
}

#[test]
fn offset_op_of_nothing_is_a_move_by_zero() {
    assert_eq!(offset_op(vec![]), vec![Atom::MovePtr(0)]);
}

#[test]
fn reorder_sorts_runs_and_keeps_equal_offsets_in_order() {
    let ir = vec![
        Atom::IncValue(1, 2),
        Atom::SetValue(5, 0),
        Atom::IncValue(2, 2),
        Atom::IncValue(3, -1),
        Atom::Print(0),
        Atom::IncValue(4, 1),
        Atom::IncValue(5, 0),
    ];
    assert_eq!(
        reorder(ir),
        vec![
            Atom::IncValue(3, -1),
            Atom::SetValue(5, 0),
            Atom::IncValue(1, 2),
            Atom::IncValue(2, 2),
            Atom::Print(0),
            Atom::IncValue(5, 0),
            Atom::IncValue(4, 1),
        ]
    );
}

#[test]
fn reorder_goes_into_loops() {
    let ir = vec![Atom::Loop(vec![Atom::IncValue(1, 1), Atom::IncValue(1, 0), Atom::MovePtr(1)])];
    assert_eq!(
        reorder(ir),
        vec![Atom::Loop(vec![Atom::IncValue(1, 0), Atom::IncValue(1, 1), Atom::MovePtr(1)])]
    );
}

#[test]
fn add_multiply_recognises_a_multiply_loop() {
    let ir = vec![Atom::Loop(vec![
        Atom::IncValue(-1, 0),
        Atom::MovePtr(1),
        Atom::IncValue(3, 0),
        Atom::MovePtr(-1),
    ])];
    assert_eq!(add_multiply(ir), vec![Atom::Multiply(3, 1), Atom::SetValue(0, 0)]);
}

#[test]
fn optimizing_a_multiply_loop() {
    let ir = vec![Atom::Loop(vec![
        Atom::IncValue(-1, 0),
        Atom::MovePtr(1),
        Atom::IncValue(3, 0),
        Atom::MovePtr(-1),
    ])];
    assert_eq!(run_opts(ir), vec![Atom::Multiply(3, 1), Atom::SetValue(0, 0)]);
}

#[test]
fn add_multiply_emits_in_order_of_first_touch_and_skips_zero_sums() {
    let ir = vec![Atom::Loop(vec![
        Atom::IncValue(2, 5),
        Atom::IncValue(-1, 0),
        Atom::IncValue(1, -3),
        Atom::IncValue(4, 7),
        Atom::IncValue(1, 5),
        Atom::IncValue(-4, 7),
    ])];
    assert_eq!(
        add_multiply(ir),
        vec![Atom::Multiply(3, 5), Atom::Multiply(1, -3), Atom::SetValue(0, 0)]
    );
}

#[test]
fn add_multiply_keeps_other_loops() {
    let ir = vec![
        Atom::Loop(vec![]),
        Atom::Loop(vec![Atom::IncValue(-1, 0), Atom::MovePtr(1)]),
        Atom::Loop(vec![Atom::IncValue(-2, 0)]),
        Atom::Loop(vec![Atom::IncValue(-1, 0), Atom::Print(0)]),
        Atom::Loop(vec![Atom::IncValue(-1, 1)]),
    ];
    assert_eq!(add_multiply(ir.clone()), ir);
}

#[test]
fn add_multiply_works_from_the_inside() {
    let ir = vec![Atom::Loop(vec![Atom::Loop(vec![Atom::IncValue(-1, 0), Atom::IncValue(1, 1)])])];
    assert_eq!(
        add_multiply(ir),
        vec![Atom::Loop(vec![Atom::Multiply(1, 1), Atom::SetValue(0, 0)])]
    );
}

#[test]
fn run_opts_on_a_small_program() {
    let ir = build_ir(b"++>+++<[->>+<<]>.").unwrap();
    assert_eq!(
        run_opts(ir),
        vec![
            Atom::IncValue(2, 0),
            Atom::IncValue(3, 1),
            Atom::Multiply(1, 2),
            Atom::SetValue(0, 0),
            Atom::Print(1),
            Atom::MovePtr(1),
        ]
    );
}

#[test]
fn run_opts_twice_on_a_program_without_multiply_loops() {
    let ir = build_ir(b"+>,[>+.<-]<<++[-]>[,.]").unwrap();
    let once = run_opts(ir);
    let twice = run_opts(once.clone());
    assert_eq!(once, twice);
}
