use core_sim::driver::{dispatch, find_agent, remap_ids, Dispatch};

#[test]
fn remap_renames_known_ids_only() {
    let mut ids = vec![1u32, 2, 3, 2];
    remap_ids(&mut ids, &vec![2, 9], &vec![20, 90]);
    assert_eq!(ids, vec![1, 20, 3, 20]);
}

#[test]
fn remap_with_lists_of_different_length_does_nothing() {
    let mut ids = vec![1u32, 2, 3];
    remap_ids(&mut ids, &vec![1, 2], &vec![10]);
    assert_eq!(ids, vec![1, 2, 3]);
}

#[test]
fn remap_lets_the_last_entry_of_an_id_win() {
    let mut ids = vec![5u32];
    remap_ids(&mut ids, &vec![5, 5], &vec![6, 7]);
    assert_eq!(ids, vec![7]);
}

#[test]
fn remap_does_not_chain() {
    let mut ids = vec![1u32, 2];
    remap_ids(&mut ids, &vec![1, 2], &vec![2, 3]);
    assert_eq!(ids, vec![2, 3]);
}

#[test]
fn identity_remap_is_idempotent() {
    let keys = vec![3u32, 1, 3, 8];
    let mut ids = vec![1u32, 2, 3, 4];
    remap_ids(&mut ids, &keys, &keys);
    assert_eq!(ids, vec![1, 2, 3, 4]);
    remap_ids(&mut ids, &keys, &keys);
    assert_eq!(ids, vec![1, 2, 3, 4]);
}

#[test]
fn remaps_compose() {
    // first: 1 -> 2, 4 -> 5; second: 2 -> 3, 5 -> 1, 7 -> 8
    let mut step = vec![1u32, 2, 4, 6, 7];
    remap_ids(&mut step, &vec![1, 4], &vec![2, 5]);
    remap_ids(&mut step, &vec![2, 5, 7], &vec![3, 1, 8]);
    // both at once: keys of the second, then keys of the first, each sent through both
    let mut once = vec![1u32, 2, 4, 6, 7];
    remap_ids(&mut once, &vec![2, 5, 7, 1, 4], &vec![3, 1, 8, 3, 1]);
    assert_eq!(step, once);
    assert_eq!(step, vec![3, 3, 1, 6, 8]);
}

#[test]
fn find_agent_returns_the_first_place() {
    let ids = vec![4u32, 7, 4, 9];
    assert_eq!(find_agent(&ids, 4), Some(0));
    assert_eq!(find_agent(&ids, 9), Some(3));
    assert_eq!(find_agent(&ids, 5), None);
    assert_eq!(find_agent(&Vec::new(), 5), None);
}

#[test]
fn dispatch_reads_action_and_mode() {
    let flow = Some("FLOW".to_string());
    let nav = Some("NAV".to_string());
    assert_eq!(dispatch(&"MOVE".to_string(), &flow), Dispatch::Retarget);
    assert_eq!(dispatch(&"MOVE".to_string(), &nav), Dispatch::Relocate);
    assert_eq!(dispatch(&"MOVE".to_string(), &Some("DIRECT".to_string())), Dispatch::Relocate);
    assert_eq!(dispatch(&"MOVE".to_string(), &None), Dispatch::Relocate);
    assert_eq!(dispatch(&"STOP".to_string(), &flow), Dispatch::Ignore);
    assert_eq!(dispatch(&"move".to_string(), &flow), Dispatch::Ignore);
    assert_eq!(dispatch(&"".to_string(), &None), Dispatch::Ignore);
}

fn renamed(ids: &[u32], old_ids: &[u32], new_ids: &[u32]) -> Vec<u32> {
    let mut out = ids.to_vec();
    remap_ids(&mut out, &old_ids.to_vec(), &new_ids.to_vec());
    out
}

/// The one renaming that does what two renamings do one after the other.
fn composed(first: (&[u32], &[u32]), second: (&[u32], &[u32])) -> (Vec<u32>, Vec<u32>) {
    let mut keys = second.0.to_vec();
    keys.extend_from_slice(first.0);
    let values = renamed(&renamed(&keys, first.0, first.1), second.0, second.1);
    (keys, values)
}

#[test]
fn remaps_compose_associatively() {
    let a: (&[u32], &[u32]) = (&[1, 2, 3], &[2, 3, 4]);
    let b: (&[u32], &[u32]) = (&[2, 4, 9], &[7, 1, 3]);
    let c: (&[u32], &[u32]) = (&[7, 1, 3], &[1, 1, 8]);
    let ids: Vec<u32> = (0..12).collect();
    let ab = composed(a, b);
    let bc = composed(b, c);
    let left = composed((&ab.0, &ab.1), c);
    let right = composed(a, (&bc.0, &bc.1));
    let stepwise = renamed(&renamed(&renamed(&ids, a.0, a.1), b.0, b.1), c.0, c.1);
    assert_eq!(renamed(&ids, &left.0, &left.1), stepwise);
    assert_eq!(renamed(&ids, &right.0, &right.1), stepwise);
}

#[test]
fn export_buffer_holds_five_values_for_each_agent() {
    let records = vec![[7.0f64, 1.5, 2.5, 0.25, -0.5], [9.0, -3.0, 4.0, 0.0, 1.0]];
    let mut buffer = vec![99.0f64; 3];
    core_sim::driver::rebuild_export_buffer(&mut buffer, &records);
    assert_eq!(buffer.len(), 5 * records.len());
    assert_eq!(buffer, vec![7.0, 1.5, 2.5, 0.25, -0.5, 9.0, -3.0, 4.0, 0.0, 1.0]);
    core_sim::driver::rebuild_export_buffer(&mut buffer, &Vec::new());
    assert!(buffer.is_empty());
}
