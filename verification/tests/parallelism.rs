use fff_index::parallelism::{background_threads, count_non_efficiency_cores, search_threads};

fn count(levels: &[(&str, usize)]) -> Option<usize> {
    let levels: Vec<Option<(String, usize)>> = levels
        .iter()
        .map(|&(name, count)| Some((name.to_owned(), count)))
        .collect();
    count_non_efficiency_cores(&levels)
}

#[test]
fn includes_super_and_performance_cores() {
    assert_eq!(count(&[("Super", 6), ("Performance", 12)]), Some(18));
    assert_eq!(count(&[("Performance", 12), ("Super", 6)]), Some(18));
}

#[test]
fn excludes_efficiency_cores_in_every_position() {
    assert_eq!(count(&[("Performance", 12), ("Efficiency", 4)]), Some(12));
    assert_eq!(count(&[("Efficiency", 4), ("Performance", 4)]), Some(4));
    assert_eq!(
        count(&[("Super", 6), ("Efficiency", 4), ("Performance", 12)]),
        Some(18)
    );
    assert_eq!(count(&[("Performance", 8), ("efficiency", 4)]), Some(8));
}

#[test]
fn accepts_standard_cores() {
    assert_eq!(count(&[("Performance", 8)]), Some(8));
    assert_eq!(count(&[("Standard", 8)]), Some(8));
}

#[test]
fn unknown_core_types_fall_back() {
    assert_eq!(count(&[("Faster", 6), ("Performance", 12)]), None);
    assert_eq!(count(&[("Super", 6), ("PowerSaving", 4)]), None);
}

#[test]
fn incomplete_or_unusable_topology_falls_back() {
    assert_eq!(count(&[]), None);
    assert_eq!(count(&[("Efficiency", 4)]), None);
    assert_eq!(count(&[("Performance", 0)]), None);
    assert_eq!(
        count_non_efficiency_cores(&[Some(("Super".into(), 6)), None]),
        None
    );
    assert_eq!(count(&[("Super", usize::MAX), ("Performance", 1)]), None);
}

#[test]
fn background_work_gets_half_of_the_threads() {
    assert_eq!(background_threads(Some(16)), 8);
    assert_eq!(background_threads(Some(1)), 2);
    assert_eq!(background_threads(None), 2);
}

#[test]
fn searching_falls_back_step_by_step() {
    assert_eq!(search_threads(Some(18), Some(6), Some(24)), 18);
    assert_eq!(search_threads(None, Some(6), Some(24)), 6);
    assert_eq!(search_threads(None, Some(0), Some(24)), 24);
    assert_eq!(search_threads(None, None, None), 4);
}
