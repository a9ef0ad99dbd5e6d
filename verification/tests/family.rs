use buco::keys::{generate_option_impls, optional_positions, Finalize, Slot};
use buco::plan::synthesize;
use buco::shape::{Field, RecordDef};

fn unset_of(op: &Finalize) -> Vec<usize> {
    op.states.iter().enumerate().filter(|(_, s)| **s == Slot::Empty).map(|(i, _)| i).collect()
}

fn def_with(flags: &[bool], strict: bool) -> RecordDef {
    RecordDef {
        name: "Record".to_string(),
        fields: flags
            .iter()
            .enumerate()
            .map(|(i, optional)| Field {
                name: format!("f{}", i),
                ty: if *optional { "Option<u8>".to_string() } else { "u8".to_string() },
                optional: *optional,
            })
            .collect(),
        strict,
    }
}

#[test]
fn relaxed_family_of_two_optional_fields() {
    let family = generate_option_impls(&vec![false, false, true, false, true, false]);
    let mut unset: Vec<Vec<usize>> = family.iter().map(unset_of).collect();
    assert_eq!(unset.len(), 3);
    assert!(family.iter().all(|op| op.states.len() == 6));
    unset.sort();
    assert_eq!(unset, vec![vec![2], vec![2, 4], vec![4]]);
}

#[test]
fn relaxed_family_comes_by_size() {
    let family = generate_option_impls(&vec![true, true, true]);
    let unset: Vec<Vec<usize>> = family.iter().map(unset_of).collect();
    assert_eq!(
        unset,
        vec![vec![0], vec![1], vec![2], vec![0, 1], vec![0, 2], vec![1, 2], vec![0, 1, 2]]
    );
}

#[test]
fn relaxed_family_without_optional_fields_is_empty() {
    assert_eq!(generate_option_impls(&vec![false, false, false]).len(), 0);
    assert_eq!(generate_option_impls(&vec![]).len(), 0);
}

#[test]
fn relaxed_family_of_one_optional_field() {
    let family = generate_option_impls(&vec![true]);
    assert_eq!(family, vec![Finalize { states: vec![Slot::Empty] }]);
}

#[test]
fn optional_positions_are_increasing() {
    assert_eq!(optional_positions(&vec![true, false, true, true, false]), vec![0, 2, 3]);
    assert_eq!(optional_positions(&vec![false, false]), Vec::<usize>::new());
    assert_eq!(optional_positions(&vec![]), Vec::<usize>::new());
}

#[test]
fn family_has_two_to_the_k_members() {
    for k in 0..6usize {
        let mut flags = vec![false, false];
        flags.extend(std::iter::repeat(true).take(k));
        flags.push(false);
        let plan = synthesize(&def_with(&flags, false));
        assert_eq!(plan.finals.len(), 1usize << k);
        let mut unset: Vec<Vec<usize>> = plan.finals.iter().map(unset_of).collect();
        assert!(unset.iter().all(|s| s.iter().all(|i| flags[*i])));
        unset.sort();
        unset.dedup();
        assert_eq!(unset.len(), 1usize << k);
    }
}

#[test]
fn four_finalize_operations_for_two_optional_fields() {
    let plan = synthesize(&def_with(&[false, false, true, false, true, false], false));
    let mut unset: Vec<Vec<usize>> = plan.finals.iter().map(unset_of).collect();
    assert_eq!(unset.last(), Some(&vec![]));
    unset.sort();
    assert_eq!(unset, vec![vec![], vec![2], vec![2, 4], vec![4]]);
}

#[test]
fn strict_family_is_the_base_alone() {
    for flags in [vec![], vec![true], vec![true, true, false], vec![false, true, true, true]] {
        let plan = synthesize(&def_with(&flags, true));
        assert_eq!(plan.finals.len(), 1);
        assert_eq!(plan.finals[0].states, vec![Slot::Filled; flags.len()]);
    }
}

#[test]
fn base_finalize_is_last() {
    let plan = synthesize(&def_with(&[true, false, true], false));
    assert_eq!(plan.finals.len(), 4);
    assert_eq!(plan.finals[3].states, vec![Slot::Filled; 3]);
}
