use rckit::util::divide;
use rckit::create::init_slots;
use rckit::migrate::{Migration, MigrateAction, MigrateEvent, MigrateState};

#[test]
fn divide_splits_exactly() {
    let r = divide(10, 3).unwrap();
    assert_eq!(r, vec![4, 3, 3]);
    let total: usize = r.iter().sum();
    assert_eq!(total, 10);
    assert_eq!(divide(10, 3).unwrap(), divide(10, 3).unwrap());
    assert!(divide(10, 0).is_err());
    assert_eq!(divide(0, 4).unwrap(), vec![0, 0, 0, 0]);
}

#[test]
fn init_slots_partitions_keyspace() {
    let r = init_slots(3).unwrap();
    assert_eq!(r, vec![(0, 5461), (5462, 10922), (10923, 16383)]);
    let total: usize = r.iter().map(|(b, e)| (e - b + 1) as usize).sum();
    assert_eq!(total, 16384);
    assert!(init_slots(0).is_err());
    assert!(init_slots(20000).is_err());
    let one = init_slots(1).unwrap();
    assert_eq!(one, vec![(0, 16383)]);
}

#[test]
fn migration_protocol_order() {
    let mut m = Migration::new(3, 2);
    assert!(matches!(m.step(MigrateEvent::Acked), MigrateAction::MarkImporting));
    assert!(matches!(m.step(MigrateEvent::Acked), MigrateAction::MarkMigrating));
    assert!(matches!(m.step(MigrateEvent::Acked), MigrateAction::FetchBatch));
    assert!(matches!(m.step(MigrateEvent::Batch(2)), MigrateAction::TransferKey));
    assert!(matches!(m.step(MigrateEvent::KeyDone), MigrateAction::TransferKey));
    assert!(matches!(m.step(MigrateEvent::KeyDone), MigrateAction::FetchBatch));
    assert!(matches!(m.step(MigrateEvent::Batch(0)), MigrateAction::AssignOwner(0)));
    assert!(matches!(m.step(MigrateEvent::Acked), MigrateAction::AssignOwner(1)));
    assert!(matches!(m.step(MigrateEvent::Acked), MigrateAction::AssignOwner(2)));
    assert!(matches!(m.step(MigrateEvent::Acked), MigrateAction::Finished));
    assert!(matches!(m.state, MigrateState::Done));
}

#[test]
fn migration_retries_then_fails() {
    let mut m = Migration::new(1, 1);
    assert!(matches!(m.step(MigrateEvent::Acked), MigrateAction::MarkImporting));
    assert!(matches!(m.step(MigrateEvent::TransientError), MigrateAction::MarkMigrating));
    assert!(matches!(m.step(MigrateEvent::TransientError), MigrateAction::Abort));
    assert!(matches!(m.state, MigrateState::Failed));
}
