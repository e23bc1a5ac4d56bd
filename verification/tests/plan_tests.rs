use std::collections::HashMap;

use mv_with::diag::Diagnostic;
use mv_with::listing::FileList;
use mv_with::plan::RenameRequest;
use mv_with::plan::RenameStep;

fn bytes(s: &str) -> Vec<u8> {
    s.as_bytes().to_vec()
}

fn listing(s: &str) -> FileList {
    FileList::parse_text(&bytes(s)).unwrap()
}

/// Applies the computed steps to a path-to-content map, the way the plan's
/// executor would: a direct step renames origin to target at its position; a
/// staged step renames origin to its temporary at its position and the
/// temporary to the target after all other steps. Panics if any write lands
/// on an occupied path or any read finds its path gone — i.e. if the order
/// would lose data.
fn apply(steps: &[RenameStep], fs: &mut HashMap<Vec<u8>, &'static str>) {
    let mut deferred: Vec<(Vec<u8>, Vec<u8>)> = Vec::new();
    for step in steps {
        match step {
            RenameStep::Direct { origin, target } => {
                let content = fs.remove(origin).expect("direct step reads a vanished path");
                assert!(fs.insert(target.clone(), content).is_none(), "direct step clobbers");
            }
            RenameStep::Staged { origin, temp, target } => {
                let content = fs.remove(origin).expect("staged step reads a vanished path");
                assert!(fs.insert(temp.clone(), content).is_none(), "staging clobbers");
                deferred.push((temp.clone(), target.clone()));
            }
        }
    }
    for (temp, target) in deferred {
        let content = fs.remove(&temp).expect("staged temp vanished");
        assert!(fs.insert(target, content).is_none(), "unstaging clobbers");
    }
}

#[test]
fn count_mismatch_when_lines_were_added() {
    let origins = listing("a\nb");
    let targets = listing("a");
    match RenameRequest::new(origins, targets) {
        Err((text, Diagnostic::CountMismatch { origins, targets })) => {
            assert_eq!(origins, 2);
            assert_eq!(targets, 1);
            assert_eq!(text, bytes("a\n"));
        }
        _ => panic!("expected CountMismatch"),
    }
}

#[test]
fn duplicate_target_names_both_lines() {
    let origins = listing("a\nb\nc");
    let targets = listing("x\ny\nx");
    match RenameRequest::new(origins, targets) {
        Err((_, Diagnostic::DuplicateTarget { path, first_line, second_line })) => {
            assert_eq!(path, bytes("x"));
            assert_eq!(first_line, 1);
            assert_eq!(second_line, 3);
        }
        _ => panic!("expected DuplicateTarget"),
    }
}

#[test]
fn all_noops_reduce_to_no_steps() {
    let origins = listing("a\nb");
    let targets = listing("a\nb");
    let mut plan = RenameRequest::new(origins, targets).unwrap();
    assert_eq!(plan.pairs.len(), 0);
    plan.sort().unwrap();
    assert_eq!(plan.steps.len(), 0);
}

#[test]
fn swap_stages_once_and_swaps_contents() {
    let origins = listing("A\nB");
    let targets = listing("B\nA");
    let mut plan = RenameRequest::new(origins, targets).unwrap();
    plan.sort().unwrap();
    let staged = plan.steps.iter().filter(|s| matches!(s, RenameStep::Staged { .. })).count();
    let direct = plan.steps.iter().filter(|s| matches!(s, RenameStep::Direct { .. })).count();
    assert_eq!(staged, 1);
    assert_eq!(direct, 1);
    let mut fs = HashMap::new();
    fs.insert(bytes("A"), "alpha");
    fs.insert(bytes("B"), "beta");
    apply(&plan.steps, &mut fs);
    assert_eq!(fs.len(), 2);
    assert_eq!(fs[&bytes("B")], "alpha");
    assert_eq!(fs[&bytes("A")], "beta");
}

#[test]
fn chain_runs_last_link_first() {
    let origins = listing("a\nb\nc");
    let targets = listing("b\nc\nd");
    let mut plan = RenameRequest::new(origins, targets).unwrap();
    plan.sort().unwrap();
    let got: Vec<(Vec<u8>, Vec<u8>)> = plan
        .steps
        .iter()
        .map(|s| match s {
            RenameStep::Direct { origin, target } => (origin.clone(), target.clone()),
            RenameStep::Staged { .. } => panic!("a chain needs no staging"),
        })
        .collect();
    assert_eq!(
        got,
        vec![
            (bytes("c"), bytes("d")),
            (bytes("b"), bytes("c")),
            (bytes("a"), bytes("b")),
        ]
    );
}

#[test]
fn three_cycle_rotates_contents() {
    let origins = listing("a\nb\nc");
    let targets = listing("b\nc\na");
    let mut plan = RenameRequest::new(origins, targets).unwrap();
    plan.sort().unwrap();
    let staged = plan.steps.iter().filter(|s| matches!(s, RenameStep::Staged { .. })).count();
    assert_eq!(staged, 1);
    assert_eq!(plan.steps.len(), 3);
    let mut fs = HashMap::new();
    fs.insert(bytes("a"), "one");
    fs.insert(bytes("b"), "two");
    fs.insert(bytes("c"), "three");
    apply(&plan.steps, &mut fs);
    assert_eq!(fs.len(), 3);
    assert_eq!(fs[&bytes("b")], "one");
    assert_eq!(fs[&bytes("c")], "two");
    assert_eq!(fs[&bytes("a")], "three");
}

#[test]
fn staging_temp_avoids_every_plan_path() {
    // "a~" is the temporary the scheme would try first for origin "a"; the
    // plan already uses it, so staging must pick another name.
    let origins = listing("a\nb\na~");
    let targets = listing("b\na\nc");
    let mut plan = RenameRequest::new(origins, targets).unwrap();
    plan.sort().unwrap();
    let mut all_paths: Vec<Vec<u8>> = Vec::new();
    for p in &plan.pairs {
        all_paths.push(p.origin.clone());
        all_paths.push(p.target.clone());
    }
    for s in &plan.steps {
        if let RenameStep::Staged { temp, .. } = s {
            assert!(!all_paths.contains(temp), "temporary collides with a plan path");
        }
    }
    let mut fs = HashMap::new();
    fs.insert(bytes("a"), "one");
    fs.insert(bytes("b"), "two");
    fs.insert(bytes("a~"), "tilde");
    apply(&plan.steps, &mut fs);
    assert_eq!(fs.len(), 3);
    assert_eq!(fs[&bytes("b")], "one");
    assert_eq!(fs[&bytes("a")], "two");
    assert_eq!(fs[&bytes("c")], "tilde");
}

#[test]
fn noop_lines_are_dropped_but_real_renames_kept() {
    let origins = listing("keep\nold");
    let targets = listing("keep\nnew");
    let mut plan = RenameRequest::new(origins, targets).unwrap();
    assert_eq!(plan.pairs.len(), 1);
    assert_eq!(plan.pairs[0].origin, bytes("old"));
    assert_eq!(plan.pairs[0].target, bytes("new"));
    assert_eq!(plan.pairs[0].line, 2);
    plan.sort().unwrap();
    assert_eq!(plan.steps.len(), 1);
}

#[test]
fn safe_order_never_overwrites_a_pending_origin() {
    // Mixed chain and unrelated renames: applying in the computed order must
    // never write over a path a later step still reads.
    let origins = listing("one\ntwo\nthree\nkeep");
    let targets = listing("two\nthree\nfour\nkeep");
    let mut plan = RenameRequest::new(origins, targets).unwrap();
    plan.sort().unwrap();
    assert_eq!(plan.steps.len(), 3);
    let mut fs = HashMap::new();
    fs.insert(bytes("one"), "1");
    fs.insert(bytes("two"), "2");
    fs.insert(bytes("three"), "3");
    apply(&plan.steps, &mut fs);
    assert_eq!(fs[&bytes("two")], "1");
    assert_eq!(fs[&bytes("three")], "2");
    assert_eq!(fs[&bytes("four")], "3");
}
