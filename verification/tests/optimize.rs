use worn::ast::BInstr;
use worn::ast::Reconstruct;
use worn::optimizer::AdvOptions;
use worn::optimizer::Optimizer;
use worn::optimizer::find_best_parameters;

fn opt(level: u8) -> Optimizer {
    Optimizer { level, adv_opt: vec![] }
}

#[test]
fn test_level_zero_is_identity() {
    let p = vec![BInstr::Add(1), BInstr::Add(1), BInstr::Move(0)];
    assert_eq!(opt(0).apply(p.clone()), p);
}

#[test]
fn test_fold_merges_runs_and_drops_zero_sums() {
    // ++<<<>>>-  =>  Add(2), a move run summing to zero, Add(-1)
    let p = vec![BInstr::Add(2), BInstr::Move(-3), BInstr::Move(3), BInstr::Add(-1)];
    assert_eq!(opt(1).apply(p), vec![BInstr::Add(2), BInstr::Add(-1)]);
}

#[test]
fn test_fold_keeps_other_instructions() {
    let p = vec![BInstr::Add(3), BInstr::Add(-3), BInstr::PutC, BInstr::Move(1), BInstr::Move(1)];
    assert_eq!(opt(1).apply(p), vec![BInstr::PutC, BInstr::Move(2)]);
}

#[test]
fn test_fold_is_idempotent_without_vanishing_runs() {
    let p = vec![
        BInstr::Add(5),
        BInstr::Add(2),
        BInstr::Move(1),
        BInstr::LoopStart,
        BInstr::Add(-1),
        BInstr::LoopEnd,
    ];
    let once = opt(1).apply(p.clone());
    let twice = opt(1).apply(once.clone());
    assert_eq!(twice, once);
}

#[test]
fn test_small_adds_are_left_alone() {
    // a run of ten `+` cannot be beaten at base 5: the candidate is longer
    let p = vec![BInstr::Add(10)];
    assert_eq!(opt(2).apply(p.clone()), p);
}

#[test]
fn test_level_two_compresses_at_base_five() {
    let out = opt(2).apply(vec![BInstr::Add(100)]);
    assert_eq!(out.reconstruct(), ">++++++++++++++++++++[<+++++>-]<");
    assert!(out.reconstruct().len() < 100);
}

#[test]
fn test_level_three_searches_for_a_better_base() {
    let out = opt(3).apply(vec![BInstr::Add(100)]);
    assert_eq!(out.reconstruct(), ">++++++++++[<++++++++++>-]<");
}

#[test]
fn test_negative_counts_compress_with_minus_signs() {
    let out = opt(3).apply(vec![BInstr::Add(-100)]);
    assert_eq!(out.reconstruct(), ">++++++++++[<---------->-]<");
}

#[test]
fn test_best_parameters_for_one_hundred() {
    let best = find_best_parameters(100, 2, 100, true);
    assert_eq!(best.chunk, 10);
    assert_eq!(best.weight, 20);
    assert_eq!(best.outer_fact, 10);
    assert_eq!(best.inner_count, 1);
    assert_eq!(best.remainder, 0);
    assert_eq!(best.sign, 1);
}

#[test]
fn test_optimized_length_never_exceeds_level_zero() {
    let p = vec![
        BInstr::Add(1000),
        BInstr::Move(2),
        BInstr::Add(7),
        BInstr::Add(-7),
        BInstr::PutC,
        BInstr::Add(-500),
    ];
    let base = opt(0).apply(p.clone()).reconstruct().len();
    for level in 0..=5u8 {
        let len = opt(level).apply(p.clone()).reconstruct().len();
        assert!(len <= base, "level {} grew the program", level);
    }
}

#[test]
fn test_io_runs_stay_untouched_without_the_opt_in() {
    let p = vec![BInstr::PutC; 100];
    assert_eq!(opt(5).apply(p.clone()), p);
}

#[test]
fn test_unsafe_io_folding_compresses_long_runs() {
    let p = vec![BInstr::PutC; 100];
    let o = Optimizer { level: 5, adv_opt: vec![AdvOptions::UnsafeFoldIO] };
    let out = o.apply(p);
    let text = out.reconstruct();
    assert!(text.len() < 100, "got {}", text);
    assert_eq!(text.matches('.').count(), 1);
}

#[test]
fn test_level_four_reruns_the_fold() {
    // level >= 4 runs pass B twice and pass A again at the end
    let p = vec![BInstr::Add(100), BInstr::Add(-100)];
    let out = opt(4).apply(p);
    assert_eq!(out, vec![]);
}
