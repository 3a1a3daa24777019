use reth_kit::engine::aggregator::PrefixSetAggregator;
use reth_kit::engine::changes::ChangeSet;
use reth_kit::engine::diff::{account_path_of, slot_path_of, AccountChange, StateDiff};
use reth_kit::engine::error::TaskError;
use reth_kit::engine::merge::merge;
use reth_kit::engine::node::Node;
use reth_kit::engine::reference::ReferenceState;
use reth_kit::engine::store::{SnapshotView, TrieOverlay};
use reth_kit::engine::task::{StateRootConfig, StateRootTask, TaskHandle, TaskState};
use reth_kit::engine::worker::compute_update;

fn address(tag: u8) -> Vec<u8> {
    vec![tag; 20]
}

fn word(last: u8) -> Vec<u8> {
    let mut w = vec![0u8; 32];
    w[31] = last;
    w
}

fn account(tag: u8, balance: u128) -> AccountChange {
    AccountChange::new(address(tag), 0, balance, vec![0xc5; 32])
}

fn diff_of(changes: Vec<AccountChange>) -> StateDiff {
    let mut diff = StateDiff::new();
    for change in changes {
        diff.push(change);
    }
    diff
}

fn run(snapshot: SnapshotView, threshold: usize, diffs: &[StateDiff]) -> (TaskHandle, Result<reth_kit::engine::task::RootResult, TaskError>) {
    let task = StateRootTask::new(StateRootConfig::new(snapshot, threshold));
    assert_eq!(task.current_state(), TaskState::Created);
    let mut hook = task.state_hook();
    let mut handle = task.spawn();
    assert_eq!(handle.current_state(), TaskState::Running);
    for diff in diffs {
        hook.on_state(diff);
        handle.deliver_all(&mut hook);
    }
    handle.close();
    let result = handle.wait_for_result();
    (handle, result)
}

fn reference_root(diffs: &[StateDiff]) -> Vec<u8> {
    let mut state = ReferenceState::new();
    for diff in diffs {
        state.apply_diff(diff);
    }
    state.root()
}

fn listing(overlay: &TrieOverlay) -> Vec<(Vec<u8>, Option<Vec<u8>>, Vec<Option<Vec<u8>>>)> {
    let mut all = Vec::new();
    for i in 0..overlay.len() {
        let node = overlay.node_at(i);
        all.push((overlay.path_at(i).clone(), node.value.clone(), node.children.clone()));
    }
    all.sort();
    all
}

#[test]
fn later_diff_wins_for_the_same_account() {
    let diff1 = diff_of(vec![account(0xaa, 10)]);
    let mut second = account(0xaa, 20);
    second.set_slot(word(1), word(2));
    let diff2 = diff_of(vec![second]);
    let (handle, result) = run(SnapshotView::empty(), 0, &[diff1, diff2]);
    let result = result.unwrap();
    assert_eq!(handle.current_state(), TaskState::Completed);

    let mut only = account(0xaa, 20);
    only.set_slot(word(1), word(2));
    let expected = reference_root(&[diff_of(vec![only])]);
    assert_eq!(result.root, expected);
    assert_eq!(result.root.len(), 32);

    let balance_ten = reference_root(&[diff_of(vec![account(0xaa, 10)])]);
    assert_ne!(result.root, balance_ten);
    let no_slot = reference_root(&[diff_of(vec![account(0xaa, 20)])]);
    assert_ne!(result.root, no_slot);
}

#[test]
fn disjoint_accounts_in_two_batches_or_one() {
    let a = diff_of(vec![account(0xaa, 1)]);
    let b = diff_of(vec![account(0xbb, 2)]);
    let both = diff_of(vec![account(0xaa, 1), account(0xbb, 2)]);
    let (_, two) = run(SnapshotView::empty(), 0, &[a, b]);
    let (_, one) = run(SnapshotView::empty(), 0, &[both]);
    let two = two.unwrap();
    let one = one.unwrap();
    assert_eq!(two.root, one.root);
    assert_eq!(listing(&two.overlay), listing(&one.overlay));
}

#[test]
fn unavailable_snapshot_fails_the_wait() {
    let mut snapshot = SnapshotView::empty();
    snapshot.retire();
    assert!(!snapshot.is_available());
    let (handle, result) = run(snapshot, 0, &[diff_of(vec![account(0xaa, 1)])]);
    assert!(matches!(result, Err(TaskError::SnapshotUnavailable)));
    assert_eq!(handle.current_state(), TaskState::Failed);

    let mut snapshot = SnapshotView::empty();
    snapshot.retire();
    let (_, result) = run(snapshot, 100, &[]);
    assert!(matches!(result, Err(TaskError::SnapshotUnavailable)));
}

#[test]
fn the_result_is_handed_out_once() {
    let (mut handle, first) = run(SnapshotView::empty(), 3, &[diff_of(vec![account(1, 1)])]);
    assert!(first.is_ok());
    assert!(matches!(handle.wait_for_result(), Err(TaskError::AlreadyConsumed)));
    assert!(matches!(handle.poll(), Some(Err(TaskError::AlreadyConsumed))));
    handle.cancel();
    assert_eq!(handle.current_state(), TaskState::Completed);
}

#[test]
fn a_failure_is_handed_out_once() {
    let mut snapshot = SnapshotView::empty();
    snapshot.retire();
    let (mut handle, first) = run(snapshot, 0, &[]);
    assert!(matches!(first, Err(TaskError::SnapshotUnavailable)));
    assert!(matches!(handle.wait_for_result(), Err(TaskError::AlreadyConsumed)));
}

#[test]
fn a_cancelled_task_hands_out_nothing() {
    let task = StateRootTask::new(StateRootConfig::new(SnapshotView::empty(), 0));
    let mut hook = task.state_hook();
    let mut handle = task.spawn();
    hook.on_state(&diff_of(vec![account(7, 7)]));
    handle.deliver_all(&mut hook);
    assert!(handle.poll().is_none());
    handle.cancel();
    assert_eq!(handle.current_state(), TaskState::Cancelled);
    assert!(matches!(handle.wait_for_result(), Err(TaskError::Cancelled)));
    assert!(matches!(handle.wait_for_result(), Err(TaskError::Cancelled)));
    hook.on_state(&diff_of(vec![account(8, 8)]));
    handle.deliver_all(&mut hook);
    assert_eq!(handle.current_state(), TaskState::Cancelled);
}

#[test]
fn an_aborted_task_fails_with_channel_closed() {
    let task = StateRootTask::new(StateRootConfig::new(SnapshotView::empty(), 0));
    let mut handle = task.spawn();
    handle.abort();
    assert_eq!(handle.current_state(), TaskState::Failed);
    assert!(matches!(handle.poll(), Some(Err(TaskError::ChannelClosedPrematurely))));
    assert!(TaskError::ChannelClosedPrematurely.is_fatal());
    assert!(!TaskError::Cancelled.is_fatal());
    assert!(TaskError::AlreadyConsumed.is_recoverable());
    assert_eq!(TaskError::NodeIntegrityError.describe(), "trie node missing under a dirty path");
}

#[test]
fn poll_is_pending_until_the_ingress_closes() {
    let task = StateRootTask::new(StateRootConfig::new(SnapshotView::empty(), 2));
    let mut hook = task.state_hook();
    let mut handle = task.spawn();
    assert!(handle.poll().is_none());
    hook.on_state(&diff_of(vec![account(1, 5)]));
    handle.deliver_all(&mut hook);
    assert!(handle.poll().is_none());
    assert!(!handle.ingress_closed());
    handle.close();
    assert!(handle.ingress_closed());
    let result = handle.poll().unwrap().unwrap();
    assert_eq!(result.root, reference_root(&[diff_of(vec![account(1, 5)])]));
}

#[test]
fn the_threshold_does_not_change_the_root() {
    let mut diffs = Vec::new();
    for round in 0..4u8 {
        let mut changes = Vec::new();
        for tag in 0..6u8 {
            let mut change = account(tag, (round as u128) * 100 + tag as u128);
            change.nonce = round as u64;
            change.set_slot(word(tag), word(round + 1));
            if round == 2 && tag % 2 == 0 {
                change.set_slot(word(tag), word(0));
            }
            changes.push(change);
        }
        if round == 3 {
            changes.push(AccountChange::removed(address(1)));
        }
        diffs.push(diff_of(changes));
    }
    let expected = reference_root(&diffs);
    for threshold in [0usize, 1, 2, 5, 13, 1000] {
        let (_, result) = run(SnapshotView::empty(), threshold, &diffs);
        assert_eq!(result.unwrap().root, expected);
    }
}

#[test]
fn the_empty_state_has_the_root_of_the_empty_node() {
    let (_, result) = run(SnapshotView::empty(), 0, &[]);
    let result = result.unwrap();
    assert_eq!(result.root, ReferenceState::new().root());
    assert_eq!(result.root, Node::empty().hash());
    assert_eq!(result.overlay.len(), 0);
    assert_eq!(SnapshotView::empty().root().unwrap(), result.root);
}

#[test]
fn removing_everything_gives_the_empty_root() {
    let mut first = account(3, 9);
    first.set_slot(word(4), word(5));
    let mut second = AccountChange::removed(address(3));
    second.set_slot(word(4), word(0));
    let (_, result) = run(SnapshotView::empty(), 0, &[diff_of(vec![first]), diff_of(vec![second])]);
    assert_eq!(result.unwrap().root, ReferenceState::new().root());
}

#[test]
fn disjoint_updates_merge_in_either_order() {
    let snapshot = SnapshotView::empty();
    let mut base = TrieOverlay::empty_for(&snapshot);
    let seed_diff = diff_of(vec![account(0x10, 1), account(0x20, 2), account(0x30, 3)]);
    let seed = compute_update(&snapshot, &base, &seed_diff.to_changes()).unwrap();
    merge(&mut base, &snapshot, seed).unwrap();

    let mut left = ChangeSet::new();
    let mut right = ChangeSet::new();
    let a = account_path_of(&address(0x10));
    let b = account_path_of(&address(0x20));
    assert_ne!(a[0], b[0]);
    assert!(left.record(slot_path_of(&a, &word(1)), Some(word(7))));
    assert!(left.record(a.clone(), Some(vec![1, 2, 3])));
    assert!(right.record(slot_path_of(&b, &word(1)), Some(word(8))));
    assert!(right.record(slot_path_of(&b, &word(2)), Some(word(9))));

    let mut first = TrieOverlay::empty_for(&snapshot);
    let mut second = TrieOverlay::empty_for(&snapshot);
    for overlay in [&mut first, &mut second] {
        let seed = compute_update(&snapshot, overlay, &seed_diff.to_changes()).unwrap();
        merge(overlay, &snapshot, seed).unwrap();
    }
    let u1 = compute_update(&snapshot, &first, &left).unwrap();
    let u2 = compute_update(&snapshot, &first, &right).unwrap();
    assert_eq!(u1.subtree(), &a);
    assert_eq!(u2.subtree(), &b);
    merge(&mut first, &snapshot, u1).unwrap();
    merge(&mut first, &snapshot, u2).unwrap();
    let u1 = compute_update(&snapshot, &second, &left).unwrap();
    let u2 = compute_update(&snapshot, &second, &right).unwrap();
    merge(&mut second, &snapshot, u2).unwrap();
    merge(&mut second, &snapshot, u1).unwrap();
    assert_eq!(listing(&first), listing(&second));

    let mut reference = ReferenceState::new();
    reference.apply_diff(&seed_diff);
    reference.apply(&left);
    reference.apply(&right);
    let top = first.get(&Vec::new()).unwrap();
    assert_eq!(top.hash(), reference.root());
}

fn settled(diffs: &[StateDiff]) -> SnapshotView {
    let empty = SnapshotView::empty();
    let (_, result) = run(empty.copy(), 1, diffs);
    reth_kit::engine::store::persist(&empty, &result.unwrap().overlay).unwrap()
}

#[test]
fn a_persisted_overlay_is_the_next_snapshot() {
    let mut first = account(0x11, 5);
    first.set_slot(word(1), word(1));
    let d1 = diff_of(vec![first, account(0x22, 6)]);
    let mut second = account(0x11, 7);
    second.set_slot(word(1), word(0));
    second.set_slot(word(2), word(3));
    let d2 = diff_of(vec![second, account(0x33, 8), AccountChange::removed(address(0x22))]);
    let snapshot = settled(std::slice::from_ref(&d1));
    assert_eq!(snapshot.root().unwrap(), reference_root(std::slice::from_ref(&d1)));
    for threshold in [0usize, 2, 50] {
        let (_, result) = run(snapshot.copy(), threshold, std::slice::from_ref(&d2));
        let d1 = diff_of(vec![{
            let mut a = account(0x11, 5);
            a.set_slot(word(1), word(1));
            a
        }, account(0x22, 6)]);
        let mut again = account(0x11, 7);
        again.set_slot(word(1), word(0));
        again.set_slot(word(2), word(3));
        let d2 = diff_of(vec![again, account(0x33, 8), AccountChange::removed(address(0x22))]);
        assert_eq!(result.unwrap().root, reference_root(&[d1, d2]));
    }
}

#[test]
fn a_task_can_start_from_an_earlier_overlay() {
    let d1 = diff_of(vec![account(0x41, 1), account(0x42, 2)]);
    let d2 = diff_of(vec![account(0x42, 3), account(0x43, 4)]);
    let snapshot = SnapshotView::empty();
    let (_, first) = run(snapshot.copy(), 0, std::slice::from_ref(&d1));
    let first = first.unwrap();
    let task = StateRootTask::new(StateRootConfig::with_seed(snapshot, first.overlay, 0));
    let mut hook = task.state_hook();
    let mut handle = task.spawn();
    hook.on_state(&d2);
    handle.deliver_all(&mut hook);
    handle.close();
    let second = handle.wait_for_result().unwrap();
    assert_eq!(second.root, reference_root(&[d1, d2]));
}

#[test]
fn a_missing_node_under_a_dirty_path_fails_the_task() {
    let d1 = diff_of(vec![account(0x51, 1), account(0x52, 2)]);
    let mut snapshot = settled(std::slice::from_ref(&d1));
    let path = account_path_of(&address(0x51));
    snapshot.forget(&path[..3].to_vec());
    let (handle, result) = run(snapshot.copy(), 0, &[diff_of(vec![account(0x51, 9)])]);
    assert!(matches!(result, Err(TaskError::NodeIntegrityError)));
    assert_eq!(handle.current_state(), TaskState::Failed);

    let other = account_path_of(&address(0x52));
    assert_ne!(other[..3], path[..3]);
    let d2 = diff_of(vec![account(0x52, 7)]);
    let (_, result) = run(snapshot.copy(), 0, std::slice::from_ref(&d2));
    assert_eq!(result.unwrap().root, reference_root(&[d1, d2]));

    let mut rootless = settled(&[diff_of(vec![account(0x51, 1)])]);
    rootless.forget(&Vec::new());
    let (_, result) = run(rootless, 5, &[diff_of(vec![account(0x77, 1)])]);
    assert!(matches!(result, Err(TaskError::NodeIntegrityError)));
}

#[test]
fn a_worker_reports_what_it_cannot_read() {
    let snapshot = settled(&[diff_of(vec![account(0x61, 1)])]);
    let overlay = TrieOverlay::empty_for(&snapshot);
    let batch = diff_of(vec![account(0x61, 2)]).to_changes();
    assert!(compute_update(&snapshot, &overlay, &batch).is_ok());
    let mut pruned = snapshot.copy();
    pruned.forget(&account_path_of(&address(0x61))[..10].to_vec());
    assert!(matches!(compute_update(&pruned, &overlay, &batch), Err(TaskError::NodeIntegrityError)));
    let mut gone = snapshot.copy();
    gone.retire();
    assert!(matches!(compute_update(&gone, &overlay, &batch), Err(TaskError::SnapshotUnavailable)));
    assert!(matches!(gone.root(), Err(TaskError::SnapshotUnavailable)));
    assert!(matches!(gone.node(&Vec::new()), Err(TaskError::SnapshotUnavailable)));
    assert!(matches!(reth_kit::engine::store::persist(&gone, &overlay), Err(TaskError::SnapshotUnavailable)));
    let empty_batch = ChangeSet::new();
    let update = compute_update(&snapshot, &overlay, &empty_batch).unwrap();
    assert_eq!(update.len(), 0);
}

#[test]
fn paths_are_the_nibbles_of_the_hashes() {
    let a = account_path_of(&address(0xaa));
    assert_eq!(a.len(), 64);
    assert!(a.iter().all(|n| *n < 16));
    let hash = reth_kit::engine::reference::ReferenceState::new().root();
    assert_eq!(hash.len(), 32);
    let s = slot_path_of(&a, &word(1));
    assert_eq!(s.len(), 128);
    assert_eq!(&s[..64], &a[..]);
    assert_ne!(&s[64..], &a[..]);
    let expected = alloy_primitives::keccak256(address(0xaa));
    let mut nibbles = Vec::new();
    for b in expected.iter() {
        nibbles.push(b >> 4);
        nibbles.push(b & 0x0f);
    }
    assert_eq!(a, nibbles);
}

#[test]
fn a_node_is_hashed_over_its_encoding() {
    let mut node = Node::empty();
    assert!(node.is_empty());
    assert_eq!(node.digest(), None);
    let mut expected = vec![0u8; 17];
    assert_eq!(node.encode(), expected);
    node.value = Some(vec![7, 8]);
    node.children[3] = Some(vec![9; 32]);
    expected = vec![1, 2, 0, 0, 0, 0, 0, 0, 0, 7, 8, 0, 0, 0];
    expected.push(1);
    expected.extend_from_slice(&[32, 0, 0, 0, 0, 0, 0, 0]);
    expected.extend_from_slice(&[9; 32]);
    expected.extend_from_slice(&[0; 12]);
    assert_eq!(node.encode(), expected);
    assert_eq!(node.hash(), alloy_primitives::keccak256(&expected).to_vec());
    assert_eq!(node.digest(), Some(node.hash()));
    assert!(!node.is_empty());
}

#[test]
fn a_change_set_keeps_the_last_write() {
    let mut set = ChangeSet::new();
    assert!(set.record(vec![1, 2, 3], Some(vec![1])));
    assert!(set.record(vec![1, 2], None));
    assert!(set.record(vec![1, 2, 3], Some(vec![2])));
    assert!(!set.record(vec![16], Some(vec![1])));
    assert!(!set.record(vec![0; 129], Some(vec![1])));
    assert!(set.record(vec![0; 128], Some(vec![1])));
    assert_eq!(set.len(), 3);
    assert_eq!(set.get(&vec![1, 2, 3]), Some(&Some(vec![2])));
    assert_eq!(set.get(&vec![1, 2]), Some(&None));
    assert_eq!(set.get(&vec![1]), None);
    assert!(set.touches(&vec![1]));
    assert!(set.touches(&vec![1, 2, 3]));
    assert!(!set.touches(&vec![1, 2, 3, 4]));
    assert!(!set.touches(&vec![2]));
    let mut later = ChangeSet::new();
    assert!(later.record(vec![1, 2], Some(vec![5])));
    assert!(later.record(vec![4], None));
    set.absorb(&later);
    assert_eq!(set.len(), 4);
    assert_eq!(set.get(&vec![1, 2]), Some(&Some(vec![5])));
    assert_eq!(set.get(&vec![4]), Some(&None));
}

#[test]
fn a_diff_becomes_writes_in_its_order() {
    let mut a = account(0x01, 3);
    a.set_slot(word(1), word(5));
    a.set_slot(word(1), word(0));
    a.set_slot(word(2), vec![]);
    a.set_slot(word(3), word(4));
    let diff = diff_of(vec![account(0x01, 1), a, AccountChange::removed(address(0x02))]);
    let writes = diff.to_changes();
    let path = account_path_of(&address(0x01));
    let mut record = 0u64.to_le_bytes().to_vec();
    record.extend_from_slice(&3u128.to_le_bytes());
    record.extend_from_slice(&[0xc5; 32]);
    assert_eq!(writes.get(&path), Some(&Some(record)));
    assert_eq!(writes.get(&slot_path_of(&path, &word(1))), Some(&None));
    assert_eq!(writes.get(&slot_path_of(&path, &word(2))), Some(&None));
    assert_eq!(writes.get(&slot_path_of(&path, &word(3))), Some(&Some(word(4))));
    assert_eq!(writes.get(&account_path_of(&address(0x02))), Some(&None));
    assert_eq!(writes.len(), 5);
}

#[test]
fn the_aggregator_hands_out_batches() {
    let mut aggregator = PrefixSetAggregator::new(2);
    assert!(!aggregator.is_due());
    assert!(!aggregator.has_pending());
    let one = diff_of(vec![account(1, 1)]).to_changes();
    aggregator.absorb(&one);
    assert!(aggregator.has_pending());
    assert!(!aggregator.is_due());
    aggregator.absorb(&one);
    assert!(!aggregator.is_due());
    aggregator.absorb(&diff_of(vec![account(2, 1)]).to_changes());
    assert!(aggregator.is_due());
    let batch = aggregator.take_batch();
    assert_eq!(batch.len(), 2);
    assert!(!aggregator.has_pending());
    let path = account_path_of(&address(1));
    assert!(aggregator.is_dirty(&path));
    assert!(aggregator.covers(&path[..7].to_vec()));
    assert!(!aggregator.is_dirty(&path[..7].to_vec()));
    assert!(!aggregator.is_dirty(&account_path_of(&address(3))));
    let mut eager = PrefixSetAggregator::new(0);
    assert!(!eager.is_due());
    eager.absorb(&one);
    assert!(eager.is_due());
}

#[test]
fn a_batch_in_pieces_is_the_batch() {
    let mut changes = Vec::new();
    for tag in 0..40u8 {
        let mut change = account(tag, tag as u128 + 1);
        change.set_slot(word(tag), word(tag + 1));
        changes.push(change);
    }
    let batch = diff_of(changes).to_changes();
    let pieces = reth_kit::engine::pool::split_batch(&batch);
    assert!(pieces.len() > 1 && pieces.len() <= 16);
    let mut total = 0;
    let mut firsts = Vec::new();
    for piece in &pieces {
        assert!(piece.len() > 0);
        let first = piece.path_at(0)[0];
        for i in 0..piece.len() {
            assert_eq!(piece.path_at(i)[0], first);
            assert_eq!(batch.get(piece.path_at(i)), Some(piece.write_at(i)));
        }
        firsts.push(first);
        total += piece.len();
    }
    assert_eq!(total, batch.len());
    assert!(firsts.windows(2).all(|w| w[0] < w[1]));
    assert_eq!(reth_kit::engine::pool::piece_at_root(&batch).len(), 0);

    let snapshot = SnapshotView::empty();
    let mut whole = TrieOverlay::empty_for(&snapshot);
    let update = compute_update(&snapshot, &whole, &batch).unwrap();
    merge(&mut whole, &snapshot, update).unwrap();
    let mut cut = TrieOverlay::empty_for(&snapshot);
    reth_kit::engine::pool::dispatch_in_pieces(&mut cut, &snapshot, &batch).unwrap();
    assert_eq!(listing(&whole), listing(&cut));

    let mut by_hand = TrieOverlay::empty_for(&snapshot);
    let mut updates = reth_kit::engine::pool::compute_all(&snapshot, &by_hand, &pieces).unwrap();
    updates.reverse();
    reth_kit::engine::pool::merge_disjoint(&mut by_hand, &snapshot, updates).unwrap();
    assert_eq!(listing(&whole), listing(&by_hand));

    let mut gone = SnapshotView::empty();
    gone.retire();
    let mut none = TrieOverlay::empty_for(&gone);
    assert!(matches!(
        reth_kit::engine::pool::dispatch_in_pieces(&mut none, &gone, &batch),
        Err(TaskError::SnapshotUnavailable)
    ));
    assert_eq!(none.len(), 0);
}

#[test]
fn a_write_to_the_empty_path_comes_last() {
    let mut batch = ChangeSet::new();
    assert!(batch.record(Vec::new(), Some(vec![1])));
    assert!(batch.record(vec![3, 4], Some(vec![2])));
    assert!(batch.record(vec![5], None));
    let last = reth_kit::engine::pool::piece_at_root(&batch);
    assert_eq!(last.len(), 1);
    assert_eq!(last.get(&Vec::new()), Some(&Some(vec![1])));
    let pieces = reth_kit::engine::pool::split_batch(&batch);
    assert_eq!(pieces.len(), 2);
    let snapshot = SnapshotView::empty();
    let mut cut = TrieOverlay::empty_for(&snapshot);
    reth_kit::engine::pool::dispatch_in_pieces(&mut cut, &snapshot, &batch).unwrap();
    let mut reference = ReferenceState::new();
    reference.apply(&batch);
    assert_eq!(cut.get(&Vec::new()).unwrap().hash(), reference.root());
    assert_eq!(cut.get(&Vec::new()).unwrap().value, Some(vec![1]));
    assert!(cut.get(&vec![5]).unwrap().is_empty());
}

#[test]
fn one_aggregate_diff_or_many_small_ones() {
    let mut a1 = account(0xa1, 10);
    a1.set_slot(word(1), word(9));
    let mut a2 = account(0xa1, 20);
    a2.set_slot(word(1), word(0));
    a2.set_slot(word(2), word(5));
    let fine = vec![
        diff_of(vec![a1]),
        diff_of(vec![account(0xb2, 1)]),
        diff_of(vec![a2, AccountChange::removed(address(0xb2))]),
        diff_of(vec![account(0xc3, 3)]),
    ];
    let mut aggregate_a = account(0xa1, 20);
    aggregate_a.set_slot(word(1), word(0));
    aggregate_a.set_slot(word(2), word(5));
    let aggregate = diff_of(vec![aggregate_a, AccountChange::removed(address(0xb2)), account(0xc3, 3)]);
    let (_, one) = run(SnapshotView::empty(), 7, std::slice::from_ref(&aggregate));
    let one = one.unwrap();
    for threshold in [0usize, 1, 3, 100] {
        let (_, many) = run(SnapshotView::empty(), threshold, &fine);
        let many = many.unwrap();
        assert_eq!(many.root, one.root);
        assert_eq!(listing(&many.overlay), listing(&one.overlay));
    }
    assert_eq!(one.root, reference_root(&fine));
}

#[test]
fn a_batch_is_merged_when_it_is_due() {
    let task = StateRootTask::new(StateRootConfig::new(SnapshotView::empty(), 3));
    let mut hook = task.state_hook();
    let mut handle = task.spawn();
    hook.on_state(&diff_of(vec![account(1, 1)]));
    handle.deliver_all(&mut hook);
    assert_eq!(handle.pending_paths(), 1);
    hook.on_state(&diff_of(vec![account(1, 2)]));
    handle.deliver_all(&mut hook);
    assert_eq!(handle.pending_paths(), 1);
    assert!(handle.is_dirty(&account_path_of(&address(1))));
    assert!(!handle.is_dirty(&account_path_of(&address(2))));
    hook.on_state(&diff_of(vec![account(2, 2), account(3, 3)]));
    handle.deliver_all(&mut hook);
    assert_eq!(handle.pending_paths(), 0);
    hook.on_state(&diff_of(vec![account(4, 4)]));
    hook.on_state(&StateDiff::new());
    handle.deliver_all(&mut hook);
    assert_eq!(handle.pending_paths(), 1);
    handle.close();
    hook.on_state(&diff_of(vec![account(5, 5)]));
    handle.deliver_all(&mut hook);
    assert_eq!(handle.pending_paths(), 1);
    assert!(!handle.is_dirty(&account_path_of(&address(5))));
    let result = handle.wait_for_result().unwrap();
    assert_eq!(
        result.root,
        reference_root(&[diff_of(vec![account(1, 2), account(2, 2), account(3, 3), account(4, 4)])])
    );
    assert_eq!(handle.pending_paths(), 0);

    let eager = StateRootTask::new(StateRootConfig::new(SnapshotView::empty(), 0));
    let mut hook = eager.state_hook();
    let mut handle = eager.spawn();
    hook.on_state(&StateDiff::new());
    hook.on_state(&diff_of(vec![account(1, 1)]));
    handle.deliver_all(&mut hook);
    assert_eq!(handle.pending_paths(), 0);
}

#[test]
fn an_unavailable_snapshot_fails_at_the_first_batch() {
    let mut snapshot = SnapshotView::empty();
    snapshot.retire();
    let task = StateRootTask::new(StateRootConfig::new(snapshot, 2));
    let mut hook = task.state_hook();
    let mut handle = task.spawn();
    hook.on_state(&diff_of(vec![account(1, 1)]));
    handle.deliver_all(&mut hook);
    assert_eq!(handle.current_state(), TaskState::Running);
    hook.on_state(&diff_of(vec![account(2, 1)]));
    handle.deliver_all(&mut hook);
    assert_eq!(handle.current_state(), TaskState::Failed);
    assert!(matches!(handle.poll(), Some(Err(TaskError::SnapshotUnavailable))));
    assert!(matches!(handle.poll(), Some(Err(TaskError::AlreadyConsumed))));
}
