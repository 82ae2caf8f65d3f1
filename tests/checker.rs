use borrowck::diag::{BorrowFact, DiagKind, Diagnostic, DropEvent, Fault, Report};
use borrowck::flow::{check, check_units, check_with_ceiling};
use borrowck::ir::{Op, Place, Program, VarDecl};
use borrowck::scopes::{build_scopes, is_nested, ScopeNode};

fn owned(n: usize) -> Vec<VarDecl> {
    (0..n).map(|_| VarDecl { copy: false }).collect()
}

fn analyse(vars: Vec<VarDecl>, ops: Vec<Op>) -> Report {
    match check(&Program { vars, ops }) {
        Ok(r) => r,
        Err(f) => panic!("malformed operation at {}", f.at),
    }
}

fn kinds(r: &Report) -> Vec<DiagKind> {
    r.diags.iter().map(|d| d.kind).collect()
}

fn err(kind: DiagKind, var: usize, at: usize, related: Option<usize>) -> Diagnostic {
    Diagnostic { kind, var: Some(var), at, related }
}

fn bind(v: usize) -> Op {
    Op::Bind { var: v }
}

fn read(v: usize) -> Op {
    Op::Read { place: Place::whole(v), via: None }
}

fn read_via(v: usize, b: usize) -> Op {
    Op::Read { place: Place::whole(v), via: Some(b) }
}

fn mv(p: Place) -> Op {
    Op::Move { place: p }
}

#[test]
fn quiet_body_has_no_diagnostics() {
    let r = analyse(
        owned(3),
        vec![
            bind(0),
            read(0),
            Op::Mutate { place: Place::whole(0), via: None },
            Op::ScopeEnter,
            bind(1),
            bind(2),
            read(1),
            Op::ScopeExit,
            Op::Return { place: None },
        ],
    );
    assert!(r.is_accepted());
    assert_eq!(r.drops, vec![DropEvent { var: 2, at: 7 }, DropEvent { var: 1, at: 7 }, DropEvent { var: 0, at: 9 }]);
}

#[test]
fn read_after_move_reports_once() {
    let r = analyse(owned(2), vec![bind(0), bind(1), read(1), Op::ScopeEnter, Op::ScopeExit, mv(Place::whole(0)), read(0)]);
    assert_eq!(r.diags, vec![err(DiagKind::UseAfterMove, 0, 6, Some(5))]);
    let r = analyse(owned(1), vec![bind(0), mv(Place::whole(0)), read(0)]);
    assert_eq!(r.diags, vec![err(DiagKind::UseAfterMove, 0, 2, Some(1))]);
}

#[test]
fn two_shared_borrows_coexist() {
    let ops = vec![
        bind(0),
        bind(1),
        Op::BorrowShared { place: Place::whole(0) },
        Op::BorrowShared { place: Place::whole(0) },
        Op::ScopeExit,
    ];
    let r = analyse(owned(2), ops);
    assert_eq!(r.diags.len(), 0);
    let ops = vec![
        bind(0),
        Op::BorrowShared { place: Place::whole(0) },
        Op::BorrowShared { place: Place::whole(0) },
        read_via(0, 1),
        read_via(0, 2),
    ];
    let r = analyse(owned(1), ops);
    assert!(r.is_accepted());
    assert_eq!(r.borrows, vec![BorrowFact { at: 1, end: 3 }, BorrowFact { at: 2, end: 4 }]);
}

#[test]
fn shared_borrow_during_exclusive_conflicts() {
    let ops = vec![
        bind(0),
        Op::BorrowExclusive { place: Place::whole(0) },
        Op::BorrowShared { place: Place::field(0, 1) },
        Op::Mutate { place: Place::whole(0), via: Some(1) },
    ];
    let r = analyse(owned(1), ops);
    assert_eq!(r.diags, vec![err(DiagKind::ConflictingBorrow, 0, 2, Some(1))]);
    assert_eq!(r.borrows, vec![BorrowFact { at: 1, end: 3 }]);
}

#[test]
fn exclusive_borrow_after_shared_conflicts() {
    let ops = vec![
        bind(0),
        Op::BorrowShared { place: Place::field(0, 0) },
        Op::BorrowExclusive { place: Place::whole(0) },
        read_via(0, 1),
    ];
    let r = analyse(owned(1), ops);
    assert_eq!(r.diags, vec![err(DiagKind::ConflictingBorrow, 0, 2, Some(1))]);
}

#[test]
fn disjoint_fields_borrow_independently() {
    let ops = vec![
        bind(0),
        Op::BorrowExclusive { place: Place::field(0, 0) },
        Op::BorrowExclusive { place: Place::field(0, 1) },
        Op::Mutate { place: Place::field(0, 0), via: Some(1) },
        Op::Mutate { place: Place::field(0, 1), via: Some(2) },
    ];
    assert!(analyse(owned(1), ops).is_accepted());
}

#[test]
fn borrow_ends_at_last_use() {
    let ops = vec![
        bind(0),
        Op::BorrowExclusive { place: Place::whole(0) },
        Op::Mutate { place: Place::whole(0), via: Some(1) },
        Op::BorrowShared { place: Place::whole(0) },
        read_via(0, 3),
        mv(Place::whole(0)),
    ];
    let r = analyse(owned(1), ops);
    assert!(r.is_accepted());
    assert_eq!(r.borrows, vec![BorrowFact { at: 1, end: 2 }, BorrowFact { at: 3, end: 4 }]);
    assert_eq!(r.drops.len(), 0);
}

#[test]
fn move_while_exclusively_borrowed() {
    let ops = vec![
        bind(0),
        Op::BorrowExclusive { place: Place::whole(0) },
        mv(Place::whole(0)),
        Op::Mutate { place: Place::whole(0), via: Some(1) },
    ];
    let r = analyse(owned(1), ops);
    assert_eq!(r.diags, vec![err(DiagKind::MoveWhileBorrowed, 0, 2, Some(1))]);
}

#[test]
fn drop_while_borrowed() {
    let ops = vec![bind(0), Op::BorrowShared { place: Place::field(0, 2) }, Op::Drop { var: 0 }, read_via(0, 1)];
    let r = analyse(owned(1), ops);
    assert_eq!(r.diags, vec![err(DiagKind::MoveWhileBorrowed, 0, 2, Some(1))]);
}

#[test]
fn partial_move_blocks_whole_use_only() {
    let ops = vec![bind(0), mv(Place::field(0, 0)), read(0), Op::Read { place: Place::field(0, 1), via: None }];
    let r = analyse(owned(1), ops);
    assert_eq!(r.diags, vec![err(DiagKind::PartialMoveError, 0, 2, Some(1))]);
    let ops = vec![bind(0), mv(Place::field(0, 0)), mv(Place::whole(0))];
    assert_eq!(analyse(owned(1), ops).diags, vec![err(DiagKind::PartialMoveError, 0, 2, Some(1))]);
}

#[test]
fn nested_field_of_moved_field_is_moved() {
    let ops = vec![
        bind(0),
        mv(Place::field(0, 0)),
        Op::Read { place: Place { var: 0, path: vec![0, 3] }, via: None },
        Op::Read { place: Place::field(0, 0), via: None },
    ];
    let r = analyse(owned(1), ops);
    assert_eq!(r.diags, vec![err(DiagKind::UseAfterMove, 0, 2, Some(1)), err(DiagKind::UseAfterMove, 0, 3, Some(1))]);
}

#[test]
fn moving_twice_is_a_use_after_move() {
    let r = analyse(owned(1), vec![bind(0), mv(Place::whole(0)), mv(Place::whole(0))]);
    assert_eq!(r.diags, vec![err(DiagKind::UseAfterMove, 0, 2, Some(1))]);
    let r = analyse(owned(1), vec![bind(0), mv(Place::whole(0)), Op::Return { place: Some(Place::whole(0)) }]);
    assert_eq!(kinds(&r), vec![DiagKind::UseAfterMove]);
}

#[test]
fn copy_values_stay_live_after_move() {
    let r = analyse(vec![VarDecl { copy: true }], vec![bind(0), mv(Place::whole(0)), mv(Place::whole(0)), read(0)]);
    assert!(r.is_accepted());
    assert_eq!(r.drops, vec![DropEvent { var: 0, at: 4 }]);
}

#[test]
fn dropping_twice_is_a_double_drop() {
    let r = analyse(owned(1), vec![bind(0), Op::Drop { var: 0 }, Op::Drop { var: 0 }, read(0)]);
    assert_eq!(
        r.diags,
        vec![
            Diagnostic { kind: DiagKind::DoubleDrop, var: Some(0), at: 2, related: None },
            Diagnostic { kind: DiagKind::UseAfterMove, var: Some(0), at: 3, related: None },
        ]
    );
    assert_eq!(r.drops.len(), 0);
}

#[test]
fn dropping_a_moved_value_is_a_use_after_move() {
    let r = analyse(owned(1), vec![bind(0), mv(Place::whole(0)), Op::Drop { var: 0 }]);
    assert_eq!(r.diags, vec![err(DiagKind::UseAfterMove, 0, 2, Some(1))]);
}

#[test]
fn scope_exit_drops_in_reverse_declaration_order() {
    let r = analyse(owned(3), vec![bind(0), bind(1), bind(2), Op::ScopeExit]);
    assert!(r.is_accepted());
    assert_eq!(
        r.drops,
        vec![DropEvent { var: 2, at: 3 }, DropEvent { var: 1, at: 3 }, DropEvent { var: 0, at: 3 }]
    );
}

#[test]
fn moved_values_are_not_dropped_at_scope_exit() {
    let r = analyse(owned(3), vec![bind(0), bind(1), bind(2), mv(Place::whole(1)), mv(Place::field(2, 0))]);
    assert!(r.is_accepted());
    assert_eq!(r.drops, vec![DropEvent { var: 2, at: 5 }, DropEvent { var: 0, at: 5 }]);
}

#[test]
fn borrow_outliving_its_variable_is_too_short() {
    let ops = vec![
        Op::ScopeEnter,
        bind(0),
        Op::BorrowShared { place: Place::whole(0) },
        Op::ScopeExit,
        read_via(0, 2),
    ];
    let r = analyse(owned(1), ops);
    assert_eq!(r.diags, vec![err(DiagKind::RegionTooShort, 0, 3, Some(2))]);
    assert_eq!(r.drops, vec![DropEvent { var: 0, at: 3 }]);
}

#[test]
fn unbalanced_scope_markers_are_structure_errors() {
    let r = analyse(owned(1), vec![Op::ScopeExit, Op::ScopeExit, Op::ScopeEnter, bind(0)]);
    assert_eq!(kinds(&r), vec![DiagKind::StructureError, DiagKind::StructureError, DiagKind::StructureError]);
    assert_eq!(r.diags[0].at, 1);
    let r = analyse(owned(1), vec![Op::ScopeEnter, bind(0)]);
    assert_eq!(r.diags, vec![Diagnostic { kind: DiagKind::StructureError, var: None, at: 2, related: None }]);
    assert_eq!(r.drops, vec![DropEvent { var: 0, at: 2 }]);
}

#[test]
fn malformed_operations_are_faults() {
    assert_eq!(check(&Program { vars: owned(1), ops: vec![bind(3)] }).err(), Some(Fault { at: 0 }));
    assert_eq!(check(&Program { vars: owned(1), ops: vec![read(0)] }).err(), Some(Fault { at: 0 }));
    assert_eq!(check(&Program { vars: owned(1), ops: vec![bind(0), bind(0)] }).err(), Some(Fault { at: 1 }));
    assert_eq!(check(&Program { vars: owned(1), ops: vec![bind(0), read_via(0, 0)] }).err(), Some(Fault { at: 1 }));
    let ops = vec![bind(0), bind(1), Op::BorrowShared { place: Place::field(0, 1) }, read_via(1, 2)];
    assert_eq!(check(&Program { vars: owned(2), ops }).err(), Some(Fault { at: 3 }));
    let ops = vec![bind(0), Op::BorrowShared { place: Place::field(0, 1) }, Op::Read { place: Place::field(0, 2), via: Some(1) }];
    assert_eq!(check(&Program { vars: owned(1), ops }).err(), Some(Fault { at: 2 }));
    let ops = vec![Op::ScopeEnter, bind(0), Op::ScopeExit, read(0), mv(Place::whole(5))];
    assert_eq!(check(&Program { vars: owned(1), ops }).err(), Some(Fault { at: 3 }));
}

#[test]
fn operation_ceiling_exhausts() {
    let prog = Program { vars: owned(1), ops: vec![bind(0), read(0), read(0)] };
    let r = check_with_ceiling(&prog, 2).ok().unwrap();
    assert_eq!(r.diags, vec![Diagnostic { kind: DiagKind::ResourceExhausted, var: None, at: 2, related: None }]);
    let r = check_with_ceiling(&prog, 3).ok().unwrap();
    assert!(r.is_accepted());
    assert_eq!(r.drops, vec![DropEvent { var: 0, at: 3 }]);
}

#[test]
fn all_independent_violations_are_reported() {
    let ops = vec![
        bind(0),
        bind(1),
        mv(Place::whole(0)),
        read(0),
        Op::BorrowExclusive { place: Place::whole(1) },
        Op::BorrowShared { place: Place::whole(1) },
        Op::Mutate { place: Place::whole(1), via: Some(4) },
        Op::Drop { var: 0 },
    ];
    let r = analyse(owned(2), ops);
    assert_eq!(
        r.diags,
        vec![
            err(DiagKind::UseAfterMove, 0, 3, Some(2)),
            err(DiagKind::ConflictingBorrow, 1, 5, Some(4)),
            err(DiagKind::UseAfterMove, 0, 7, Some(2)),
        ]
    );
}

#[test]
fn scope_tree_is_numbered_in_pre_order() {
    let ops = vec![Op::ScopeEnter, Op::ScopeEnter, Op::ScopeExit, Op::ScopeExit, Op::ScopeEnter, Op::ScopeExit];
    let t = build_scopes(&ops).ok().unwrap();
    assert_eq!(
        t,
        vec![
            ScopeNode { parent: None, start: 0, end: 6, last: 3 },
            ScopeNode { parent: Some(0), start: 0, end: 3, last: 2 },
            ScopeNode { parent: Some(1), start: 1, end: 2, last: 2 },
            ScopeNode { parent: Some(0), start: 4, end: 5, last: 3 },
        ]
    );
    assert!(is_nested(&t, 2, 1));
    assert!(is_nested(&t, 2, 0));
    assert!(!is_nested(&t, 3, 1));
    assert!(!is_nested(&t, 1, 2));
}

#[test]
fn scope_tree_rejects_unbalanced_markers() {
    let structure = |at: usize| Diagnostic { kind: DiagKind::StructureError, var: None, at, related: None };
    assert_eq!(build_scopes(&vec![Op::ScopeExit, Op::ScopeExit]).err(), Some(structure(1)));
    assert_eq!(build_scopes(&vec![Op::ScopeEnter, bind(0)]).err(), Some(structure(2)));
    assert_eq!(build_scopes(&vec![bind(0), Op::ScopeExit]).ok().unwrap()[0].end, 1);
}

#[test]
fn independent_units_are_checked_separately() {
    let units = vec![
        Program { vars: owned(1), ops: vec![bind(0), mv(Place::whole(0)), read(0)] },
        Program { vars: owned(1), ops: vec![read(0)] },
        Program { vars: owned(2), ops: vec![bind(0), bind(1)] },
    ];
    let r = check_units(&units);
    assert_eq!(r.len(), 3);
    assert_eq!(r[0].as_ref().ok().unwrap().diags, vec![err(DiagKind::UseAfterMove, 0, 2, Some(1))]);
    assert_eq!(r[1].as_ref().err(), Some(&Fault { at: 0 }));
    let last = r[2].as_ref().ok().unwrap();
    assert!(last.is_accepted());
    assert_eq!(last.drops, vec![DropEvent { var: 1, at: 2 }, DropEvent { var: 0, at: 2 }]);
}

#[test]
fn read_after_move_with_unrelated_operations_between() {
    let ops = vec![
        bind(0),
        mv(Place::whole(0)),
        bind(1),
        Op::BorrowShared { place: Place::whole(1) },
        read_via(1, 3),
        Op::ScopeEnter,
        bind(2),
        Op::ScopeExit,
        read(0),
    ];
    let r = analyse(owned(3), ops);
    assert_eq!(r.diags, vec![err(DiagKind::UseAfterMove, 0, 8, Some(1))]);
}

#[test]
fn move_is_refused_only_until_the_last_use_of_a_borrow() {
    let ops = vec![
        bind(0),
        Op::BorrowShared { place: Place::field(0, 0) },
        mv(Place::whole(0)),
        read_via(0, 1),
        mv(Place::whole(0)),
    ];
    let r = analyse(owned(1), ops);
    assert_eq!(r.diags, vec![err(DiagKind::MoveWhileBorrowed, 0, 2, Some(1))]);
    assert!(r.drops.is_empty());
}
