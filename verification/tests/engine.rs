use cfg_patch::error::PatchError;
use cfg_patch::ir::{
    BasicBlockData, Body, LocalDecl, Location, Mutability, Operand, Place, Statement, Terminator,
    Ty,
};
use cfg_patch::kind::SplitKind;
use cfg_patch::modifier::BodyModifier;

fn loc(block: usize, statement_index: usize) -> Location {
    Location { block, statement_index }
}

fn block(handles: &[u64], terminator: Terminator) -> BasicBlockData {
    BasicBlockData {
        statements: handles.iter().map(|h| Statement::Foreign(*h)).collect(),
        terminator: Some(terminator),
        is_cleanup: false,
    }
}

fn slot(id: u64) -> LocalDecl {
    LocalDecl { ty: Ty { id }, mutability: Mutability::Not, internal: false }
}

fn one_block_body() -> Body {
    Body {
        basic_blocks: vec![block(&[10, 11, 12, 13, 14, 15], Terminator::Return)],
        local_decls: vec![slot(100), slot(101)],
    }
}

fn two_block_body() -> Body {
    Body {
        basic_blocks: vec![
            block(&[10, 11, 12, 13], Terminator::Goto { target: 1 }),
            block(&[20, 21], Terminator::Return),
        ],
        local_decls: vec![slot(100), slot(101), slot(102)],
    }
}

fn foreign(handles: &[u64]) -> Vec<Statement> {
    handles.iter().map(|h| Statement::Foreign(*h)).collect()
}

fn all_terminated(body: &Body) -> bool {
    body.basic_blocks.iter().all(|b| b.terminator.is_some())
}

#[test]
fn new_table_is_identity() {
    let m = BodyModifier::new(two_block_body());
    for b in 0..2 {
        let count = m.body().basic_blocks[b].statements.len();
        for i in 0..=count {
            assert_eq!(m.resolve(loc(b, i)), Ok(loc(b, i)));
        }
    }
    assert_eq!(m.resolve(loc(0, 5)), Err(PatchError::UnknownLocation));
    assert_eq!(m.resolve(loc(1, 3)), Err(PatchError::UnknownLocation));
    assert_eq!(m.resolve(loc(2, 0)), Err(PatchError::UnknownLocation));
    assert_eq!(m.body(), &two_block_body());
}

#[test]
fn new_on_empty_body() {
    let m = BodyModifier::new(Body { basic_blocks: vec![], local_decls: vec![] });
    assert_eq!(m.resolve(loc(0, 0)), Err(PatchError::UnknownLocation));
    assert!(!m.is_synthetic(0));
    assert_eq!(m.into_body(), Body { basic_blocks: vec![], local_decls: vec![] });
}

#[test]
fn split_test_kind_scenario() {
    let mut m = BodyModifier::new(one_block_body());
    let synthetic = m.allocate_split_branch_before(&loc(0, 5), SplitKind::Test);
    assert_eq!(synthetic, Ok(1));
    let body = m.body();
    assert_eq!(body.basic_blocks.len(), 3);
    assert_eq!(body.basic_blocks[0].statements, foreign(&[10, 11, 12, 13, 14]));
    assert_eq!(
        body.basic_blocks[0].terminator,
        Some(Terminator::FalseEdge { real_target: 2, imaginary_target: 1 })
    );
    assert_eq!(body.basic_blocks[1].statements, Vec::<Statement>::new());
    assert_eq!(body.basic_blocks[1].terminator, Some(Terminator::Unreachable));
    assert_eq!(body.basic_blocks[2].statements, foreign(&[15]));
    assert_eq!(body.basic_blocks[2].terminator, Some(Terminator::Return));
    assert_eq!(m.resolve(loc(0, 5)), Ok(loc(2, 0)));
    assert_eq!(m.resolve(loc(0, 6)), Ok(loc(2, 1)));
    assert_eq!(m.resolve(loc(0, 4)), Ok(loc(0, 4)));
    assert!(m.is_synthetic(1));
    assert!(!m.is_synthetic(0));
    assert!(!m.is_synthetic(2));
    assert!(!m.is_synthetic(3));
}

#[test]
fn split_inline_wiring() {
    let mut m = BodyModifier::new(two_block_body());
    let synthetic = m.allocate_split_branch_before(&loc(0, 1), SplitKind::Inline).unwrap();
    assert_eq!(synthetic, 2);
    let continuation = 3;
    assert_eq!(m.resolve(loc(0, 1)), Ok(loc(continuation, 0)));
    let body = m.body();
    assert_eq!(body.basic_blocks[continuation].statements, foreign(&[11, 12, 13]));
    assert_eq!(body.basic_blocks[0].statements, foreign(&[10]));
    assert_eq!(body.basic_blocks[0].terminator, Some(Terminator::Goto { target: synthetic }));
    assert_eq!(
        body.basic_blocks[synthetic].terminator,
        Some(Terminator::Goto { target: continuation })
    );
    assert_eq!(
        body.basic_blocks[continuation].terminator,
        Some(Terminator::Goto { target: 1 })
    );
    assert_eq!(body.basic_blocks[1], two_block_body().basic_blocks[1]);
    assert_eq!(body.local_decls, two_block_body().local_decls);
}

#[test]
fn split_approximator_wiring() {
    let mut m = BodyModifier::new(two_block_body());
    let synthetic = m.allocate_split_branch_before(&loc(1, 1), SplitKind::Approximator).unwrap();
    assert_eq!(synthetic, 2);
    let body = m.body();
    assert_eq!(
        body.basic_blocks[1].terminator,
        Some(Terminator::FalseEdge { real_target: 3, imaginary_target: 2 })
    );
    assert_eq!(body.basic_blocks[2].terminator, Some(Terminator::Goto { target: 3 }));
    assert_eq!(body.basic_blocks[3].terminator, Some(Terminator::Return));
    assert_eq!(body.basic_blocks[1].statements, foreign(&[20]));
    assert_eq!(body.basic_blocks[3].statements, foreign(&[21]));
    assert_eq!(body.basic_blocks[0], two_block_body().basic_blocks[0]);
}

#[test]
fn split_at_terminator_position() {
    let mut m = BodyModifier::new(two_block_body());
    let synthetic = m.allocate_split_branch_before(&loc(1, 2), SplitKind::Inline).unwrap();
    assert_eq!(synthetic, 2);
    let body = m.body();
    assert_eq!(body.basic_blocks[1].statements, foreign(&[20, 21]));
    assert_eq!(body.basic_blocks[3].statements, Vec::<Statement>::new());
    assert_eq!(body.basic_blocks[3].terminator, Some(Terminator::Return));
    assert_eq!(m.resolve(loc(1, 2)), Ok(loc(3, 0)));
    assert_eq!(m.resolve(loc(1, 1)), Ok(loc(1, 1)));
}

#[test]
fn split_at_first_statement() {
    let mut m = BodyModifier::new(two_block_body());
    m.allocate_split_branch_before(&loc(0, 0), SplitKind::Test).unwrap();
    let body = m.body();
    assert_eq!(body.basic_blocks[0].statements, Vec::<Statement>::new());
    assert_eq!(body.basic_blocks[3].statements, foreign(&[10, 11, 12, 13]));
    for i in 0..=4 {
        assert_eq!(m.resolve(loc(0, i)), Ok(loc(3, i)));
    }
}

#[test]
fn split_unknown_location_changes_nothing() {
    let mut m = BodyModifier::new(two_block_body());
    assert_eq!(
        m.allocate_split_branch_before(&loc(0, 5), SplitKind::Inline),
        Err(PatchError::UnknownLocation)
    );
    assert_eq!(
        m.allocate_split_branch_before(&loc(7, 0), SplitKind::Test),
        Err(PatchError::UnknownLocation)
    );
    assert_eq!(m.body(), &two_block_body());
    assert_eq!(m.resolve(loc(0, 2)), Ok(loc(0, 2)));
}

#[test]
fn split_does_not_clear_cleanup_flag_of_split_block() {
    let mut body = two_block_body();
    body.basic_blocks[0].is_cleanup = true;
    let mut m = BodyModifier::new(body);
    m.allocate_split_branch_before(&loc(0, 2), SplitKind::Inline).unwrap();
    assert!(m.body().basic_blocks[0].is_cleanup);
    assert!(!m.body().basic_blocks[2].is_cleanup);
    assert!(!m.body().basic_blocks[3].is_cleanup);
}

#[test]
fn coordinates_outside_the_split_are_stable() {
    let mut m = BodyModifier::new(two_block_body());
    m.allocate_split_branch_before(&loc(0, 2), SplitKind::Inline).unwrap();
    assert_eq!(m.resolve(loc(0, 0)), Ok(loc(0, 0)));
    assert_eq!(m.resolve(loc(0, 1)), Ok(loc(0, 1)));
    assert_eq!(m.resolve(loc(0, 2)), Ok(loc(3, 0)));
    assert_eq!(m.resolve(loc(0, 3)), Ok(loc(3, 1)));
    assert_eq!(m.resolve(loc(0, 4)), Ok(loc(3, 2)));
    for i in 0..=2 {
        assert_eq!(m.resolve(loc(1, i)), Ok(loc(1, i)));
    }
    m.make_nop_at(&loc(0, 3)).unwrap();
    m.allocate_split_branch_before(&loc(1, 1), SplitKind::Test).unwrap();
    assert_eq!(m.resolve(loc(0, 0)), Ok(loc(0, 0)));
    assert_eq!(m.resolve(loc(0, 3)), Ok(loc(3, 1)));
    assert_eq!(m.resolve(loc(1, 0)), Ok(loc(1, 0)));
    assert_eq!(m.resolve(loc(1, 1)), Ok(loc(5, 0)));
    assert_eq!(m.resolve(loc(1, 2)), Ok(loc(5, 1)));
}

#[test]
fn split_after_a_location_leaves_it_alone() {
    let mut m = BodyModifier::new(one_block_body());
    m.allocate_split_branch_before(&loc(0, 4), SplitKind::Inline).unwrap();
    assert_eq!(m.resolve(loc(0, 3)), Ok(loc(0, 3)));
    m.allocate_split_branch_before(&loc(0, 5), SplitKind::Inline).unwrap();
    assert_eq!(m.resolve(loc(0, 3)), Ok(loc(0, 3)));
    assert_eq!(m.resolve(loc(0, 4)), Ok(loc(2, 0)));
    assert_eq!(m.resolve(loc(0, 5)), Ok(loc(4, 0)));
    assert_eq!(m.resolve(loc(0, 6)), Ok(loc(4, 1)));
}

#[test]
fn second_split_at_the_same_location_lands_in_the_continuation() {
    let mut m = BodyModifier::new(one_block_body());
    let first = m.allocate_split_branch_before(&loc(0, 2), SplitKind::Inline).unwrap();
    let second = m.allocate_split_branch_before(&loc(0, 2), SplitKind::Inline).unwrap();
    assert_eq!(first, 1);
    assert_eq!(second, 3);
    assert_eq!(m.resolve(loc(0, 2)), Ok(loc(4, 0)));
    let body = m.body();
    assert_eq!(body.basic_blocks.len(), 5);
    assert_eq!(body.basic_blocks[0].statements, foreign(&[10, 11]));
    assert_eq!(body.basic_blocks[0].terminator, Some(Terminator::Goto { target: 1 }));
    assert_eq!(body.basic_blocks[1].terminator, Some(Terminator::Goto { target: 2 }));
    assert_eq!(body.basic_blocks[2].statements, Vec::<Statement>::new());
    assert_eq!(body.basic_blocks[2].terminator, Some(Terminator::Goto { target: 3 }));
    assert_eq!(body.basic_blocks[3].terminator, Some(Terminator::Goto { target: 4 }));
    assert_eq!(body.basic_blocks[4].statements, foreign(&[12, 13, 14, 15]));
    assert_eq!(body.basic_blocks[4].terminator, Some(Terminator::Return));
    assert!(m.is_synthetic(first));
    assert!(m.is_synthetic(second));
}

#[test]
fn synthetic_indices_strictly_increase() {
    let mut m = BodyModifier::new(one_block_body());
    let mut last = 0;
    for i in 0..6 {
        let s = m.allocate_split_branch_before(&loc(0, i), SplitKind::Approximator).unwrap();
        assert!(s > last);
        assert_eq!(s, 1 + 2 * i);
        last = s;
    }
    assert_eq!(m.body().basic_blocks.len(), 13);
}

#[test]
fn nop_replaces_in_place() {
    let mut m = BodyModifier::new(two_block_body());
    assert_eq!(m.make_nop_at(&loc(0, 2)), Ok(()));
    let body = m.body();
    assert_eq!(
        body.basic_blocks[0].statements,
        vec![
            Statement::Foreign(10),
            Statement::Foreign(11),
            Statement::Nop,
            Statement::Foreign(13)
        ]
    );
    assert_eq!(body.basic_blocks[0].terminator, Some(Terminator::Goto { target: 1 }));
    assert_eq!(body.basic_blocks[1], two_block_body().basic_blocks[1]);
    assert_eq!(m.resolve(loc(0, 2)), Ok(loc(0, 2)));
    assert_eq!(m.resolve(loc(0, 3)), Ok(loc(0, 3)));
}

#[test]
fn nop_twice_is_nop_once() {
    let mut once = BodyModifier::new(two_block_body());
    once.make_nop_at(&loc(1, 0)).unwrap();
    let mut twice = BodyModifier::new(two_block_body());
    twice.make_nop_at(&loc(1, 0)).unwrap();
    assert_eq!(twice.make_nop_at(&loc(1, 0)), Ok(()));
    assert_eq!(once.body(), twice.body());
    assert_eq!(twice.body().basic_blocks[1].statements[0], Statement::Nop);
}

#[test]
fn nop_of_terminator_is_refused() {
    let mut m = BodyModifier::new(two_block_body());
    assert_eq!(m.make_nop_at(&loc(0, 4)), Err(PatchError::TerminatorNotNoppable));
    assert_eq!(m.make_nop_at(&loc(1, 2)), Err(PatchError::TerminatorNotNoppable));
    assert_eq!(m.body(), &two_block_body());
    m.allocate_split_branch_before(&loc(0, 2), SplitKind::Inline).unwrap();
    let before = m.body().clone();
    assert_eq!(m.make_nop_at(&loc(0, 4)), Err(PatchError::TerminatorNotNoppable));
    assert_eq!(m.body(), &before);
}

#[test]
fn nop_of_unknown_location_is_refused() {
    let mut m = BodyModifier::new(two_block_body());
    assert_eq!(m.make_nop_at(&loc(0, 5)), Err(PatchError::UnknownLocation));
    assert_eq!(m.make_nop_at(&loc(2, 0)), Err(PatchError::UnknownLocation));
    m.allocate_split_branch_before(&loc(0, 2), SplitKind::Inline).unwrap();
    let before = m.body().clone();
    assert_eq!(m.make_nop_at(&loc(3, 0)), Err(PatchError::UnknownLocation));
    assert_eq!(m.body(), &before);
}

#[test]
fn nop_follows_the_table_after_a_split() {
    let mut m = BodyModifier::new(one_block_body());
    m.allocate_split_branch_before(&loc(0, 4), SplitKind::Test).unwrap();
    assert_eq!(m.make_nop_at(&loc(0, 5)), Ok(()));
    assert_eq!(m.make_nop_at(&loc(0, 1)), Ok(()));
    let body = m.body();
    assert_eq!(
        body.basic_blocks[0].statements,
        vec![
            Statement::Foreign(10),
            Statement::Nop,
            Statement::Foreign(12),
            Statement::Foreign(13)
        ]
    );
    assert_eq!(body.basic_blocks[2].statements, vec![Statement::Foreign(14), Statement::Nop]);
}

#[test]
fn nop_all_spares_synthetic_content() {
    let mut m = BodyModifier::new(two_block_body());
    let synthetic = m.allocate_split_branch_before(&loc(0, 2), SplitKind::Inline).unwrap();
    let probe = m.test_move_out(Place { local: 1 });
    m.set_statements(synthetic, probe.clone());
    m.overwrite_all_as_nop();
    let body = m.body();
    assert_eq!(body.basic_blocks[0].statements, vec![Statement::Nop, Statement::Nop]);
    assert_eq!(body.basic_blocks[1].statements, vec![Statement::Nop, Statement::Nop]);
    assert_eq!(body.basic_blocks[synthetic].statements, probe);
    assert_eq!(body.basic_blocks[3].statements, vec![Statement::Nop, Statement::Nop]);
    assert_eq!(body.basic_blocks[0].terminator, Some(Terminator::Goto { target: 2 }));
    assert_eq!(body.basic_blocks[1].terminator, Some(Terminator::Return));
    assert_eq!(body.basic_blocks[2].terminator, Some(Terminator::Goto { target: 3 }));
    assert_eq!(body.basic_blocks[3].terminator, Some(Terminator::Goto { target: 1 }));
    assert_eq!(m.resolve(loc(0, 3)), Ok(loc(3, 1)));
}

#[test]
fn nop_all_is_idempotent() {
    let mut m = BodyModifier::new(two_block_body());
    m.allocate_split_branch_before(&loc(1, 1), SplitKind::Approximator).unwrap();
    m.overwrite_all_as_nop();
    let once = m.body().clone();
    m.overwrite_all_as_nop();
    assert_eq!(m.body(), &once);
    for b in [0usize, 1, 3] {
        assert!(once.basic_blocks[b].statements.iter().all(|s| *s == Statement::Nop));
    }
    assert_eq!(once.basic_blocks[0].statements.len(), 4);
    assert_eq!(once.basic_blocks[1].statements.len(), 1);
    assert_eq!(once.basic_blocks[3].statements.len(), 1);
}

#[test]
fn nop_all_on_untouched_body() {
    let mut m = BodyModifier::new(one_block_body());
    m.overwrite_all_as_nop();
    assert_eq!(m.body().basic_blocks[0].statements, vec![Statement::Nop; 6]);
    assert_eq!(m.body().basic_blocks[0].terminator, Some(Terminator::Return));
    assert_eq!(m.body().local_decls, one_block_body().local_decls);
}

#[test]
fn every_block_keeps_a_terminator() {
    let mut m = BodyModifier::new(two_block_body());
    assert!(all_terminated(m.body()));
    let a = m.allocate_split_branch_before(&loc(0, 1), SplitKind::Test).unwrap();
    assert!(all_terminated(m.body()));
    m.make_nop_at(&loc(0, 0)).unwrap();
    assert!(all_terminated(m.body()));
    let b = m.allocate_split_branch_before(&loc(1, 2), SplitKind::Inline).unwrap();
    assert!(all_terminated(m.body()));
    let probe = m.test_move_out(Place { local: 0 });
    m.set_statements(a, probe);
    m.set_statements(b, vec![Statement::Nop]);
    assert!(all_terminated(m.body()));
    m.overwrite_all_as_nop();
    assert!(all_terminated(m.body()));
    assert!(m.make_nop_at(&loc(9, 9)).is_err());
    assert!(m.test_mut_borrow(Place { local: 0 }).is_err());
    assert!(all_terminated(m.body()));
    assert_eq!(m.into_body().basic_blocks.len(), 6);
}

#[test]
fn move_out_probe_statements() {
    let mut m = BodyModifier::new(two_block_body());
    let p = m.local_to_place(1);
    assert_eq!(p, Place { local: 1 });
    let statements = m.test_move_out(p);
    assert_eq!(
        statements,
        vec![
            Statement::StorageLive(3),
            Statement::Assign { place: Place { local: 3 }, value: Operand::Move(Place { local: 1 }) },
            Statement::StorageDead(3),
        ]
    );
    let body = m.body();
    assert_eq!(body.local_decls.len(), 4);
    assert_eq!(
        body.local_decls[3],
        LocalDecl { ty: Ty { id: 101 }, mutability: Mutability::Mut, internal: true }
    );
    assert_eq!(body.local_decls[..3], two_block_body().local_decls[..]);
    assert_eq!(body.basic_blocks, two_block_body().basic_blocks);
}

#[test]
fn move_out_probes_take_distinct_slots() {
    let mut m = BodyModifier::new(two_block_body());
    let first = m.test_move_out(Place { local: 0 });
    let second = m.test_move_out(Place { local: 3 });
    assert_eq!(first[0], Statement::StorageLive(3));
    assert_eq!(second[0], Statement::StorageLive(4));
    assert_eq!(m.body().local_decls[4].ty, Ty { id: 100 });
    assert!(m.body().local_decls[4].internal);
}

#[test]
fn mut_borrow_probe_is_unsupported() {
    let mut m = BodyModifier::new(two_block_body());
    assert_eq!(m.test_mut_borrow(Place { local: 1 }), Err(PatchError::Unsupported));
    assert_eq!(m.body(), &two_block_body());
    assert_eq!(m.resolve(loc(1, 1)), Ok(loc(1, 1)));
}

#[test]
fn fresh_slot_of_the_session() {
    let mut m = BodyModifier::new(one_block_body());
    assert_eq!(m.allocate_fresh_local(Ty { id: 7 }, Mutability::Not), 2);
    assert_eq!(m.allocate_fresh_local(Ty { id: 8 }, Mutability::Mut), 3);
    assert_eq!(
        m.body().local_decls[2],
        LocalDecl { ty: Ty { id: 7 }, mutability: Mutability::Not, internal: true }
    );
    assert_eq!(
        m.body().local_decls[3],
        LocalDecl { ty: Ty { id: 8 }, mutability: Mutability::Mut, internal: true }
    );
    assert_eq!(m.body().basic_blocks, one_block_body().basic_blocks);
}

#[test]
fn populate_synthetic_block() {
    let mut m = BodyModifier::new(one_block_body());
    let synthetic = m.allocate_split_branch_before(&loc(0, 5), SplitKind::Test).unwrap();
    assert!(m.is_synthetic(synthetic));
    let probe = m.test_move_out(m.local_to_place(1));
    m.set_statements(synthetic, probe.clone());
    let body = m.body();
    assert_eq!(body.basic_blocks[synthetic].statements, probe);
    assert_eq!(body.basic_blocks[synthetic].terminator, Some(Terminator::Unreachable));
    assert_eq!(body.basic_blocks[0].statements.len(), 5);
    assert_eq!(body.basic_blocks[2].statements, foreign(&[15]));
    assert_eq!(m.resolve(loc(0, 5)), Ok(loc(2, 0)));
}

#[test]
fn jumping_terminator_of_each_kind() {
    assert_eq!(
        SplitKind::Test.jumping_terminator(7, 9),
        Some(Terminator::FalseEdge { real_target: 7, imaginary_target: 9 })
    );
    assert_eq!(
        SplitKind::Approximator.jumping_terminator(7, 9),
        Some(Terminator::FalseEdge { real_target: 7, imaginary_target: 9 })
    );
    assert_eq!(SplitKind::Inline.jumping_terminator(7, 9), Some(Terminator::Goto { target: 9 }));
}

#[test]
fn test_terminator_of_each_kind() {
    assert_eq!(SplitKind::Test.test_terminator(7), Some(Terminator::Unreachable));
    assert_eq!(SplitKind::Inline.test_terminator(7), Some(Terminator::Goto { target: 7 }));
    assert_eq!(SplitKind::Approximator.test_terminator(7), Some(Terminator::Goto { target: 7 }));
}
