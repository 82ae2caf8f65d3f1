//! Ownership skeletons of small example programs, checked end to end.
use borrowck::diag::{BorrowFact, DiagKind, Diagnostic, DropEvent, Report};
use borrowck::flow::check;
use borrowck::ir::{Op, Place, Program, VarDecl};
use borrowck::numbers::{fizz_buzz, is_big, FizzBuzz, Operations, VeryVerboseEnumOfThingsToDoWithNumbers, THRESHOLD};
use borrowck::regions::{check_signature, Lifetime, Region, Signature};

fn vars(copy: &[bool]) -> Vec<VarDecl> {
    copy.iter().map(|c| VarDecl { copy: *c }).collect()
}

fn analyse(copy: &[bool], ops: Vec<Op>) -> Report {
    match check(&Program { vars: vars(copy), ops }) {
        Ok(r) => r,
        Err(f) => panic!("malformed operation at {}", f.at),
    }
}

fn b(v: usize) -> Op {
    Op::Bind { var: v }
}

fn rd(v: usize) -> Op {
    Op::Read { place: Place::whole(v), via: None }
}

fn rv(v: usize, via: usize) -> Op {
    Op::Read { place: Place::whole(v), via: Some(via) }
}

fn mu(v: usize) -> Op {
    Op::Mutate { place: Place::whole(v), via: None }
}

fn muv(v: usize, via: usize) -> Op {
    Op::Mutate { place: Place::whole(v), via: Some(via) }
}

fn mv(v: usize) -> Op {
    Op::Move { place: Place::whole(v) }
}

fn bs(v: usize) -> Op {
    Op::BorrowShared { place: Place::whole(v) }
}

fn bx(v: usize) -> Op {
    Op::BorrowExclusive { place: Place::whole(v) }
}

fn drops(r: &Report) -> Vec<(usize, usize)> {
    r.drops.iter().map(|d| (d.var, d.at)).collect()
}

fn diag(kind: DiagKind, var: usize, at: usize, related: usize) -> Diagnostic {
    Diagnostic { kind, var: Some(var), at, related: Some(related) }
}

fn signature(named: usize, has_self: bool, params: Vec<Option<Lifetime>>, output: Option<Lifetime>, bounds: Vec<(usize, usize)>) -> Signature {
    Signature { named, has_self, params, output, bounds }
}

const E: Option<Lifetime> = Some(Lifetime::Elided);
const A: Option<Lifetime> = Some(Lifetime::Named(0));
const B: Option<Lifetime> = Some(Lifetime::Named(1));

#[test]
fn zr_scoping_rules_one() {
    // box2, box3, x: a value dropped at the end of its block
    let r = analyse(&[false, false, false], vec![b(0), Op::ScopeEnter, b(1), Op::ScopeExit, Op::ScopeEnter, b(2), Op::ScopeExit]);
    assert!(r.is_accepted());
    assert_eq!(drops(&r), vec![(1, 3), (2, 6), (0, 7)]);
    // the body of crate_box, run 1_000 times
    let r = analyse(&[false], vec![b(0)]);
    assert!(r.is_accepted());
    assert_eq!(drops(&r), vec![(0, 1)]);
}

fn moves_program() -> Vec<Op> {
    // x, y: u32; a, b: Box<i32>
    vec![
        Op::ScopeEnter,
        b(0),
        mv(0),
        b(1),
        rd(0),
        rd(1),
        rd(0),
        rd(1),
        b(2),
        rd(2),
        mv(2),
        b(3),
        mv(3),
        Op::ScopeExit,
    ]
}

#[test]
fn zr_scoping_rules_two() {
    let copy = [true, true, false, false];
    let r = analyse(&copy, moves_program());
    assert!(r.is_accepted());
    assert_eq!(drops(&r), vec![(1, 13), (0, 13)]);
    // reading `a` after `let b = a;`, and `b` after `destroy_box(b)`
    let mut ops = moves_program();
    ops.insert(13, rd(3));
    ops.insert(11, rd(2));
    let r = analyse(&copy, ops);
    assert_eq!(r.diags, vec![diag(DiagKind::UseAfterMove, 2, 11, 10), diag(DiagKind::UseAfterMove, 3, 14, 13)]);
}

#[test]
fn zr_scoping_rules_third() {
    // immutable_box moved into mutable_box, which is then written
    let r = analyse(&[false, false], vec![b(0), rd(0), mv(0), b(1), rd(1), mu(1), rd(1)]);
    assert!(r.is_accepted());
    assert_eq!(drops(&r), vec![(1, 7)]);
}

fn person_program() -> Vec<Op> {
    // person { name, age }: `let Person { name, ref age } = person;`
    vec![
        b(0),
        Op::Move { place: Place::field(0, 0) },
        Op::BorrowShared { place: Place::field(0, 1) },
        b(1),
        b(2),
        Op::Read { place: Place::field(0, 1), via: Some(2) },
        rd(1),
        Op::Read { place: Place::field(0, 1), via: None },
    ]
}

#[test]
fn zr_scoping_rules_fourth() {
    let copy = [false, false, true];
    let r = analyse(&copy, person_program());
    assert!(r.is_accepted());
    assert_eq!(drops(&r), vec![(2, 8), (1, 8), (0, 8)]);
    let mut ops = person_program();
    ops.push(rd(0));
    let r = analyse(&copy, ops);
    assert_eq!(r.diags, vec![diag(DiagKind::PartialMoveError, 0, 8, 1)]);
}

#[test]
fn zr_scoping_rules_fifth() {
    // boxed_i32, stacked_i32, _ref_to_i32
    let copy = [false, true, true];
    let ops = vec![
        Op::ScopeEnter,
        b(0),
        b(1),
        bs(0),
        rv(0, 3),
        bs(1),
        rv(1, 5),
        Op::ScopeEnter,
        bs(0),
        b(2),
        rv(0, 8),
        Op::ScopeExit,
        mv(0),
        Op::ScopeExit,
    ];
    let r = analyse(&copy, ops);
    assert!(r.is_accepted());
    assert_eq!(drops(&r), vec![(2, 11), (1, 13)]);
    // eat_box_i32(boxed_i32) while _ref_to_i32 is still to be used
    let ops = vec![Op::ScopeEnter, b(0), b(1), Op::ScopeEnter, bs(0), b(2), mv(0), rv(0, 4), Op::ScopeExit, Op::ScopeExit];
    let r = analyse(&copy, ops);
    assert_eq!(r.diags, vec![diag(DiagKind::MoveWhileBorrowed, 0, 6, 4)]);
}

#[test]
fn zr_scoping_rules_sixth() {
    // immutabook copied into mutabook; borrow_book twice, new_edition once
    let ops = vec![Op::ScopeEnter, b(0), mv(0), b(1), bs(0), rv(0, 4), bs(1), rv(1, 6), bx(1), muv(1, 8), rv(1, 8), Op::ScopeExit];
    let r = analyse(&[true, true], ops);
    assert!(r.is_accepted());
    assert_eq!(drops(&r), vec![(1, 11), (0, 11)]);
}

#[test]
fn zs_life_time_one() {
    // i outlives borrow1 and borrow2, whose regions do not meet
    let ops = vec![
        Op::ScopeEnter,
        b(0),
        Op::ScopeEnter,
        bs(0),
        b(1),
        rv(0, 3),
        Op::ScopeExit,
        Op::ScopeEnter,
        bs(0),
        b(2),
        rv(0, 8),
        Op::ScopeExit,
        Op::ScopeExit,
    ];
    let r = analyse(&[true, true, true], ops);
    assert!(r.is_accepted());
    assert_eq!(r.borrows, vec![BorrowFact { at: 3, end: 5 }, BorrowFact { at: 8, end: 10 }]);
    assert_eq!(drops(&r), vec![(1, 6), (2, 11), (0, 12)]);
}

#[test]
fn zs_life_time_two() {
    // fn print_refs<'a, 'b>(x: &'a i32, y: &'b i32)
    let r = check_signature(&signature(2, false, vec![A, B], None, vec![])).unwrap();
    assert!(r.diags.is_empty());
    assert_eq!(r.output, None);
    let ops = vec![Op::ScopeEnter, b(0), b(1), bs(0), bs(1), rv(0, 3), rv(1, 4), Op::ScopeExit];
    assert!(analyse(&[true, true], ops).is_accepted());
    // failed_borrow: `let y: &'a i32 = &_x;` must outlive `_x`
    let ops = vec![Op::ScopeEnter, b(0), bs(0), b(1), Op::ScopeExit, rv(0, 2)];
    let r = analyse(&[true, true], ops);
    assert_eq!(r.diags, vec![diag(DiagKind::RegionTooShort, 0, 4, 2)]);
}

#[test]
fn zs_life_time_third() {
    // fn pass_x<'a, 'b>(x: &'a i32, _: &'b i32) -> &'a i32
    let r = check_signature(&signature(2, false, vec![A, B], A, vec![])).unwrap();
    assert_eq!(r.output, Some(Region::Named(0)));
    assert!(r.diags.is_empty());
    // fn add_one<'a>(x: &'a mut i32)
    assert!(check_signature(&signature(1, false, vec![A], None, vec![])).unwrap().diags.is_empty());
    // x, y, z, t
    let ops = vec![
        Op::ScopeEnter,
        b(0),
        b(1),
        bs(0),
        rv(0, 3),
        bs(0),
        bs(1),
        rv(0, 5),
        rv(1, 6),
        bs(0),
        bs(1),
        b(2),
        rv(0, 9),
        b(3),
        bx(3),
        muv(3, 14),
        bs(3),
        rv(3, 16),
        Op::ScopeExit,
    ];
    let r = analyse(&[true, true, true, true], ops);
    assert!(r.is_accepted());
    assert_eq!(r.borrows[4], BorrowFact { at: 10, end: 10 });
}

#[test]
fn zs_life_time_fourth() {
    // fn add_one<'a>(&'a mut self), fn print<'a>(&'a self)
    let r = check_signature(&signature(1, true, vec![A], None, vec![])).unwrap();
    assert!(r.diags.is_empty());
    let ops = vec![Op::ScopeEnter, b(0), bx(0), muv(0, 2), bs(0), rv(0, 4), Op::ScopeExit];
    let r = analyse(&[false], ops);
    assert!(r.is_accepted());
    assert_eq!(drops(&r), vec![(0, 6)]);
}

#[test]
fn zs_life_time_fifth() {
    // x, y; single, double, reference borrow them; number copies y
    let ops = vec![
        Op::ScopeEnter,
        b(0),
        b(1),
        bs(0),
        b(2),
        bs(0),
        bs(1),
        b(3),
        bs(0),
        b(4),
        mv(1),
        b(5),
        rv(0, 3),
        rv(0, 5),
        rv(1, 6),
        rv(0, 8),
        rd(5),
        Op::ScopeExit,
    ];
    let r = analyse(&[true, true, false, false, false, true], ops);
    assert!(r.is_accepted());
    assert_eq!(drops(&r), vec![(5, 17), (4, 17), (3, 17), (2, 17), (1, 17), (0, 17)]);
}

#[test]
fn zs_life_time_sixth() {
    // let b: Borrowed = Default::default();
    let r = analyse(&[false], vec![Op::ScopeEnter, b(0), rd(0), Op::ScopeExit]);
    assert!(r.is_accepted());
    assert_eq!(r.drops, vec![DropEvent { var: 0, at: 3 }]);
}

#[test]
fn zs_life_time_seventh() {
    // x, ref_x = Ref(&x); print_ref(&ref_x); print(ref_x)
    let ops = vec![Op::ScopeEnter, b(0), bs(0), b(1), bs(1), rv(1, 4), rv(0, 2), mv(1), Op::ScopeExit];
    let r = analyse(&[true, false], ops);
    assert!(r.is_accepted());
    assert_eq!(drops(&r), vec![(0, 8)]);
}

#[test]
fn zs_life_time_eighth() {
    // fn choose_first<'a: 'b, 'b>(first: &'a i32, _: &'b i32) -> &'b i32
    let r = check_signature(&signature(2, false, vec![A, B], B, vec![(0, 1)])).unwrap();
    assert_eq!(r.output, Some(Region::Named(1)));
    assert!(r.diags.is_empty());
    let r = check_signature(&signature(2, false, vec![A, B], B, vec![(0, 1), (1, 0)])).unwrap();
    assert_eq!(r.diags, vec![DiagKind::RegionCycle]);
    // first lives longer than second
    let ops = vec![
        Op::ScopeEnter,
        b(0),
        Op::ScopeEnter,
        b(1),
        bs(0),
        bs(1),
        rv(0, 4),
        rv(1, 5),
        bs(0),
        bs(1),
        rv(0, 8),
        Op::ScopeExit,
        Op::ScopeExit,
    ];
    let r = analyse(&[true, true], ops);
    assert!(r.is_accepted());
    assert_eq!(drops(&r), vec![(1, 11), (0, 12)]);
}

#[test]
fn ninth() {
    // fn coerce_static<'a>(_: &'a i32) -> &'a i32
    let r = check_signature(&signature(1, false, vec![A], A, vec![])).unwrap();
    assert_eq!(r.output, Some(Region::Named(0)));
    let ops = vec![
        Op::ScopeEnter,
        Op::ScopeEnter,
        b(0),
        rd(0),
        Op::ScopeExit,
        Op::ScopeEnter,
        b(1),
        bs(1),
        b(2),
        rv(1, 7),
        Op::ScopeExit,
        Op::ScopeExit,
    ];
    let r = analyse(&[true, true, true], ops);
    assert!(r.is_accepted());
    assert_eq!(drops(&r), vec![(0, 4), (2, 10), (1, 10)]);
}

#[test]
fn tenth() {
    // fn elided_pass(x: &i32) -> &i32 and fn annotated_pass<'a>(x: &'a i32) -> &'a i32
    let elided = check_signature(&signature(0, false, vec![E], E, vec![])).unwrap();
    assert_eq!(elided.output, Some(Region::Param(0)));
    assert!(elided.diags.is_empty());
    let annotated = check_signature(&signature(1, false, vec![A], A, vec![])).unwrap();
    assert_eq!(annotated.output, Some(Region::Named(0)));
    // fn elided_input(x: &i32)
    assert_eq!(check_signature(&signature(0, false, vec![E], None, vec![])).unwrap().output, None);
    // two unannotated inputs leave the output undetermined
    let r = check_signature(&signature(0, false, vec![E, E], E, vec![])).unwrap();
    assert_eq!(r.diags, vec![DiagKind::ElisionAmbiguity]);
    let ops = vec![Op::ScopeEnter, b(0), bs(0), rv(0, 2), bs(0), rv(0, 4), bs(0), rv(0, 6), bs(0), rv(0, 8), Op::ScopeExit];
    assert!(analyse(&[true], ops).is_accepted());
}

#[test]
fn v_for_and_iter_one() {
    // names.iter() borrows; names stays usable
    let r = analyse(&[false], vec![b(0), bs(0), rv(0, 1), rd(0)]);
    assert!(r.is_accepted());
    assert_eq!(drops(&r), vec![(0, 4)]);
}

#[test]
fn v_for_and_iter_two() {
    // names.into_iter() moves names
    let r = analyse(&[false], vec![b(0), mv(0)]);
    assert!(r.is_accepted());
    assert!(r.drops.is_empty());
    let r = analyse(&[false], vec![b(0), mv(0), rd(0)]);
    assert_eq!(r.diags, vec![diag(DiagKind::UseAfterMove, 0, 2, 1)]);
}

#[test]
fn v_for_and_iter_third() {
    // names.iter_mut() borrows exclusively while the loop writes
    let r = analyse(&[false], vec![b(0), bx(0), muv(0, 1), rd(0)]);
    assert!(r.is_accepted());
    let r = analyse(&[false], vec![b(0), bx(0), bs(0), muv(0, 1)]);
    assert_eq!(r.diags, vec![diag(DiagKind::ConflictingBorrow, 0, 2, 1)]);
}

#[test]
fn zg_closure_example_one() {
    // vec1.iter(), vec2.into_iter(), array1.iter(), array2.into_iter()
    let ops = vec![b(0), b(1), bs(0), rv(0, 2), mv(1), b(2), b(3), bs(2), rv(2, 7), mv(3)];
    let r = analyse(&[false, false, true, true], ops);
    assert!(r.is_accepted());
    assert_eq!(drops(&r), vec![(3, 10), (2, 10), (0, 10)]);
}

#[test]
fn zg_closure_example_two() {
    // iter borrows vec1, into_iter owns vec2; find advances both
    let ops = vec![b(0), b(1), bs(0), b(2), mv(1), b(3), mu(2), rv(0, 2), mu(3), b(4), b(5), bs(4), rv(4, 11), bs(5), rv(5, 13)];
    let r = analyse(&[false, false, false, false, true, true], ops);
    assert!(r.is_accepted());
    assert_eq!(drops(&r), vec![(5, 15), (4, 15), (3, 15), (2, 15), (0, 15)]);
}

#[test]
fn ze_closure_input_params_one() {
    // diary captures greeting by reference and farewell by value
    let ops = vec![b(0), b(1), bs(0), mv(1), b(2), mv(2), rv(0, 2), b(3), mv(3)];
    let r = analyse(&[true, false, false, false], ops);
    assert!(r.is_accepted());
    assert_eq!(drops(&r), vec![(0, 9)]);
    let ops = vec![b(0), b(1), bs(0), mv(1), b(2), rd(1)];
    let r = analyse(&[true, false, false], ops);
    assert_eq!(r.diags, vec![diag(DiagKind::UseAfterMove, 1, 5, 3)]);
}

#[test]
fn zf_closure_type_anonymity_one() {
    // print borrows x; apply(print) consumes the closure
    let r = analyse(&[true, false], vec![b(0), bs(0), b(1), mv(1), rv(0, 1)]);
    assert!(r.is_accepted());
    assert_eq!(drops(&r), vec![(0, 5)]);
}

#[test]
fn zf_closure_type_anonymity_third() {
    // create_fn: txt moves into the returned closure
    let r = analyse(&[false, false], vec![b(0), mv(0), b(1), Op::Return { place: Some(Place::whole(1)) }]);
    assert!(r.is_accepted());
    assert!(r.drops.is_empty());
    // fn_plain(), fn_mut(), fn_once()
    let r = analyse(&[false, false, false], vec![b(0), b(1), b(2), rd(0), mu(1), mv(2)]);
    assert!(r.is_accepted());
    let r = analyse(&[false, false, false], vec![b(0), b(1), b(2), rd(0), mu(1), mv(2), mv(2)]);
    assert_eq!(r.diags, vec![diag(DiagKind::UseAfterMove, 2, 6, 5)]);
}

#[test]
fn zl_generic_one() {
    // _s, _char, _t, _i32 and a second _char
    let r = analyse(&[false, true, false, true, true], vec![b(0), b(1), b(2), b(3), b(4)]);
    assert!(r.is_accepted());
    assert_eq!(drops(&r), vec![(4, 5), (3, 5), (2, 5), (1, 5), (0, 5)]);
}

#[test]
fn zl_generic_third() {
    // x.value(), y.value()
    let r = analyse(&[false, false], vec![b(0), b(1), bs(0), rv(0, 2), bs(1), rv(1, 4)]);
    assert!(r.is_accepted());
}

#[test]
fn zl_generic_fourth() {
    // empty.double_drop(null) takes both
    let r = analyse(&[false, false], vec![b(0), b(1), mv(0), mv(1)]);
    assert!(r.is_accepted());
    assert!(r.drops.is_empty());
    let r = analyse(&[false, false], vec![b(0), b(1), mv(0), mv(1), rd(0), rd(1)]);
    assert_eq!(r.diags, vec![diag(DiagKind::UseAfterMove, 0, 4, 2), diag(DiagKind::UseAfterMove, 1, 5, 3)]);
}

#[test]
fn zt_trait_one() {
    // dolly.talk(); dolly.shear(); dolly.talk();
    let ops = vec![Op::ScopeEnter, b(0), bs(0), rv(0, 2), bx(0), muv(0, 4), bs(0), rv(0, 6), Op::ScopeExit];
    let r = analyse(&[false], ops);
    assert!(r.is_accepted());
    assert_eq!(drops(&r), vec![(0, 8)]);
}

#[test]
fn zt_trait_sixth() {
    // _a, then _b in block A, then _c and _d in block B
    let ops = vec![
        Op::ScopeEnter,
        b(0),
        Op::ScopeEnter,
        b(1),
        Op::ScopeEnter,
        b(2),
        b(3),
        Op::ScopeExit,
        Op::ScopeExit,
        Op::ScopeExit,
    ];
    let r = analyse(&[false, false, false, false], ops);
    assert!(r.is_accepted());
    assert_eq!(drops(&r), vec![(3, 7), (2, 7), (1, 8), (0, 9)]);
    // drop(_a) by hand: it is not destroyed again at the end
    let ops = vec![Op::ScopeEnter, b(0), Op::Drop { var: 0 }, Op::ScopeExit];
    let r = analyse(&[false], ops);
    assert!(r.is_accepted());
    assert!(r.drops.is_empty());
}

#[test]
fn w_match_one() {
    // number, boolean, binary
    let r = analyse(&[true, true, true], vec![b(0), rd(0), rd(0), b(1), rd(1), b(2), rd(1), rd(2)]);
    assert!(r.is_accepted());
    assert_eq!(drops(&r), vec![(2, 8), (1, 8), (0, 8)]);
}

#[test]
fn y_if_let_one() {
    // optional, number, letter, emoticon, a, i_like_letters, a, b, c, value
    let copy = [true, true, true, true, true, true, false, false, false, true];
    let ops = vec![b(0), rd(0), b(1), b(2), b(3), rd(1), b(4), rd(4), rd(2), b(5), rd(3), rd(5), b(6), b(7), b(8), rd(6), rd(7), rd(8), b(9), rd(9)];
    let r = analyse(&copy, ops);
    assert!(r.is_accepted());
    assert_eq!(r.drops.len(), 10);
}

#[test]
fn m_enum_two() {
    let _x_1 = Operations::Add;
    let y_1 = Operations::Subtract;
    let x = 32;
    let y = 22;
    let v = VeryVerboseEnumOfThingsToDoWithNumbers::run(&y_1, x, y);
    assert_eq!(v, 10);
    assert_eq!(Operations::Add.run(x, y), 54);
}

#[test]
fn q_constants_one() {
    let n = 16;
    assert_eq!(THRESHOLD, 10);
    assert!(is_big(n));
    assert!(!is_big(THRESHOLD));
    assert_eq!(if is_big(n) { "big" } else { "small" }, "big");
}

fn tally(words: &[FizzBuzz]) -> [usize; 4] {
    let mut t = [0usize; 4];
    for w in words {
        match w {
            FizzBuzz::FizzBuzz => t[0] += 1,
            FizzBuzz::Fizz => t[1] += 1,
            FizzBuzz::Buzz => t[2] += 1,
            FizzBuzz::Number(_) => t[3] += 1,
        }
    }
    t
}

#[test]
fn u_flow_of_control_fifth() {
    let mut n = 1;
    let mut words = Vec::new();
    while n < 101 {
        words.push(fizz_buzz(n));
        n += 1;
    }
    assert_eq!(tally(&words), [6, 27, 14, 53]);
    assert_eq!(words[14], FizzBuzz::FizzBuzz);
    assert_eq!(words[8], FizzBuzz::Fizz);
    assert_eq!(words[9], FizzBuzz::Buzz);
    assert_eq!(words[6], FizzBuzz::Number(7));
}

#[test]
fn u_flow_of_control_sixth() {
    let a: Vec<FizzBuzz> = (1..101).map(fizz_buzz).collect();
    let b: Vec<FizzBuzz> = (1..=100).map(fizz_buzz).collect();
    assert_eq!(a, b);
    assert_eq!(fizz_buzz(-15), FizzBuzz::FizzBuzz);
    assert_eq!(fizz_buzz(-7), FizzBuzz::Number(-7));
    assert_eq!(fizz_buzz(0), FizzBuzz::FizzBuzz);
}

#[test]
fn zr_scoping_rules_seventh() {
    // point, borrowed_point, another_borrow, mutable_borrow, new_borrowed_point
    let ops = vec![
        Op::ScopeEnter,
        b(0),
        bs(0),
        b(1),
        bs(0),
        b(2),
        Op::Read { place: Place::field(0, 0), via: Some(2) },
        Op::Read { place: Place::field(0, 1), via: Some(2) },
        Op::Read { place: Place::field(0, 2), via: None },
        Op::Read { place: Place::field(0, 0), via: Some(2) },
        Op::Read { place: Place::field(0, 1), via: Some(4) },
        Op::Read { place: Place::field(0, 2), via: None },
        bx(0),
        b(3),
        Op::Mutate { place: Place::field(0, 0), via: Some(12) },
        Op::Mutate { place: Place::field(0, 1), via: Some(12) },
        Op::Mutate { place: Place::field(0, 2), via: Some(12) },
        rv(0, 12),
        rv(0, 12),
        rv(0, 12),
        bs(0),
        b(4),
        rv(0, 20),
        rv(0, 20),
        rv(0, 20),
        Op::ScopeExit,
    ];
    let r = analyse(&[false, true, true, false, true], ops);
    assert!(r.is_accepted());
    assert_eq!(r.borrows, vec![
        BorrowFact { at: 2, end: 9 },
        BorrowFact { at: 4, end: 10 },
        BorrowFact { at: 12, end: 19 },
        BorrowFact { at: 20, end: 24 },
    ]);
    // `let mutable_borrow = &mut point;` while the shared borrows are still used
    let ops = vec![Op::ScopeEnter, b(0), bs(0), b(1), bs(0), b(2), bx(0), rv(0, 2), rv(0, 4), Op::ScopeExit];
    let r = analyse(&[false, true, true], ops);
    assert_eq!(r.diags, vec![diag(DiagKind::ConflictingBorrow, 0, 6, 2)]);
    // `let y = &point.y;` while mutable_borrow is still used
    let ops = vec![Op::ScopeEnter, b(0), bx(0), b(1), muv(0, 2), Op::BorrowShared { place: Place::field(0, 1) }, rv(0, 2), Op::ScopeExit];
    let r = analyse(&[false, false], ops);
    assert_eq!(r.diags, vec![diag(DiagKind::ConflictingBorrow, 0, 5, 2)]);
}

#[test]
fn zr_scoping_rules_eighth() {
    // c, ref_c1, ref_c2, point, _copy_of_x, ref_to_x, mutable_point, mut_ref_to_y, mutable_tuple, last
    let copy = [true, true, true, true, true, true, true, true, false, true];
    let ops = vec![
        Op::ScopeEnter,
        b(0),
        bs(0),
        b(1),
        bs(0),
        b(2),
        rv(0, 2),
        rv(0, 4),
        b(3),
        Op::ScopeEnter,
        Op::BorrowShared { place: Place::field(3, 0) },
        b(5),
        Op::Read { place: Place::field(3, 0), via: Some(10) },
        Op::ScopeExit,
        b(4),
        mv(3),
        b(6),
        Op::ScopeEnter,
        Op::BorrowExclusive { place: Place::field(6, 1) },
        b(7),
        Op::Mutate { place: Place::field(6, 1), via: Some(18) },
        Op::ScopeExit,
        rd(3),
        rd(6),
        b(8),
        Op::ScopeEnter,
        Op::BorrowExclusive { place: Place::field(8, 1) },
        b(9),
        Op::Mutate { place: Place::field(8, 1), via: Some(26) },
        Op::ScopeExit,
        rd(8),
        Op::ScopeExit,
    ];
    let r = analyse(&copy, ops);
    assert!(r.is_accepted());
    assert_eq!(
        drops(&r),
        vec![(5, 13), (7, 21), (9, 29), (8, 31), (6, 31), (4, 31), (3, 31), (2, 31), (1, 31), (0, 31)]
    );
}

#[test]
fn zf_closure_type_anonymity_two() {
    // call_me(closure): the closure is handed over
    let r = analyse(&[false], vec![b(0), mv(0)]);
    assert!(r.is_accepted());
    assert!(r.drops.is_empty());
}

#[test]
fn zl_generic_two() {
    // reg_fn(S(A)), gen_spec_t(SGen(A)), gen_spec_i32(SGen(6)), generic::<char>(SGen('a')), generic(SGen('c'))
    let mut ops = Vec::new();
    for t in 0..5 {
        ops.push(b(t));
        ops.push(mv(t));
    }
    let r = analyse(&[false, false, false, false, false], ops);
    assert!(r.is_accepted());
    assert!(r.drops.is_empty());
}
