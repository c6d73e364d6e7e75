use cyclic_graph::{GeneratorMode, IdGenerator};

#[test]
fn usize_generator_dry_run_keeps_counter() {
    let mut recent_id: usize = 5;
    let id = <() as IdGenerator<usize>>::generate_id(&mut recent_id, GeneratorMode::DryRun);
    assert_eq!(id, 5);
    assert_eq!(recent_id, 5);
}

#[test]
fn usize_generator_normal_advances_counter() {
    let mut recent_id: usize = 5;
    let id = <() as IdGenerator<usize>>::generate_id(&mut recent_id, GeneratorMode::Normal);
    assert_eq!(id, 5);
    assert_eq!(recent_id, 6);
    let id = <() as IdGenerator<usize>>::generate_id(&mut recent_id, GeneratorMode::Normal);
    assert_eq!(id, 6);
    assert_eq!(recent_id, 7);
}

#[test]
fn usize_generator_wraps_around() {
    let mut recent_id: usize = usize::MAX;
    let id = <() as IdGenerator<usize>>::generate_id(&mut recent_id, GeneratorMode::Normal);
    assert_eq!(id, usize::MAX);
    assert_eq!(recent_id, 0);
}

#[test]
fn string_generator_formats_counter_in_decimal() {
    let mut recent_id: usize = 0;
    let id = <() as IdGenerator<String>>::generate_id(&mut recent_id, GeneratorMode::DryRun);
    assert_eq!(id, "ML_0");
    assert_eq!(recent_id, 0);
    let id = <() as IdGenerator<String>>::generate_id(&mut recent_id, GeneratorMode::Normal);
    assert_eq!(id, "ML_0");
    assert_eq!(recent_id, 1);

    let mut recent_id: usize = 1203;
    let id = <() as IdGenerator<String>>::generate_id(&mut recent_id, GeneratorMode::Normal);
    assert_eq!(id, "ML_1203");
    assert_eq!(recent_id, 1204);
}

#[test]
fn string_generator_writes_every_digit() {
    let mut recent_id: usize = 9876543210;
    let id = <() as IdGenerator<String>>::generate_id(&mut recent_id, GeneratorMode::DryRun);
    assert_eq!(id, "ML_9876543210");
    let mut recent_id: usize = usize::MAX;
    let id = <() as IdGenerator<String>>::generate_id(&mut recent_id, GeneratorMode::Normal);
    assert_eq!(id, format!("ML_{}", usize::MAX));
    assert_eq!(recent_id, 0);
}

#[test]
fn string_ids_from_distinct_counters_differ() {
    let mut ids: Vec<String> = Vec::new();
    for start in [0usize, 1, 10, 11, 100, 101, 110] {
        let mut recent_id = start;
        ids.push(<() as IdGenerator<String>>::generate_id(&mut recent_id, GeneratorMode::DryRun));
    }
    for a in 0..ids.len() {
        for b in 0..ids.len() {
            assert_eq!(ids[a] == ids[b], a == b);
        }
    }
}
