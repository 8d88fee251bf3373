use liro::{tier, GuildRoleManager, RoleError, SyncPlan};

fn manager() -> GuildRoleManager {
    let mut m = GuildRoleManager::new();
    m.register(1, 12, 1200).unwrap();
    m.register(1, 15, 1500).unwrap();
    m.register(2, 12, 2200).unwrap();
    m
}

fn apply(held: &[u64], plan: &SyncPlan) -> Vec<u64> {
    match plan {
        SyncPlan::Apply { add, remove } => {
            let mut out: Vec<u64> = held.iter().copied().filter(|r| !remove.contains(r)).collect();
            if let Some(a) = add {
                out.push(*a);
            }
            out.sort();
            out
        }
        SyncPlan::NeedRole { .. } => panic!("role missing"),
    }
}

#[test]
fn tier_bands_are_inclusive() {
    assert_eq!(tier(0), 0);
    assert_eq!(tier(99), 0);
    assert_eq!(tier(100), 1);
    assert_eq!(tier(1299), 12);
    assert_eq!(tier(1500), 15);
}

#[test]
fn role_lookup_and_reuse() {
    let mut m = manager();
    assert_eq!(m.role_for(1, 12), Some(1200));
    assert_eq!(m.role_for(2, 15), None);
    assert_eq!(m.register(1, 13, 1200), Err(RoleError::RoleInUse));
    assert_eq!(m.register(2, 13, 1200), Ok(()));
    assert_eq!(m.register(1, 12, 1201), Ok(()));
    assert_eq!(m.role_for(1, 12), Some(1201));
    assert!(m.is_tier_role(1, 1500));
    assert!(!m.is_tier_role(1, 1200));
}

#[test]
fn sync_asks_for_missing_role() {
    let m = manager();
    match m.sync_role(2, &vec![], 1550) {
        SyncPlan::NeedRole { tier } => assert_eq!(tier, 15),
        _ => panic!("expected a request for a role"),
    }
}

#[test]
fn sync_twice_is_idempotent() {
    let m = manager();
    let first = m.sync_role(1, &vec![7, 1500], 1234);
    let once = apply(&[7, 1500], &first);
    assert_eq!(once, vec![7, 1200]);
    let second = m.sync_role(1, &once, 1234);
    match &second {
        SyncPlan::Apply { add, remove } => {
            assert_eq!(*add, None);
            assert!(remove.is_empty());
        }
        _ => panic!("expected a plan"),
    }
    assert_eq!(apply(&once, &second), once);
}

#[test]
fn sync_moves_between_tiers() {
    let m = manager();
    let once = apply(&[7], &m.sync_role(1, &vec![7], 1250));
    assert_eq!(once, vec![7, 1200]);
    let twice = apply(&once, &m.sync_role(1, &once, 1599));
    assert!(twice.contains(&1500));
    assert!(!twice.contains(&1200));
    assert_eq!(twice, vec![7, 1500]);
}

#[test]
fn sync_leaves_other_guilds_roles() {
    let m = manager();
    let plan = m.sync_role(1, &vec![2200, 1500], 1210);
    assert_eq!(apply(&[2200, 1500], &plan), vec![1200, 2200]);
}
