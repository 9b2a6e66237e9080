use mls_tree::astree::{ASTreeNode, EpochSecrets, GenerationTracker, SecretTreeError};
use mls_tree::config::MlsGroupConfig;

fn secret(b: u8) -> ASTreeNode {
    ASTreeNode { secret: vec![b; 4] }
}

#[test]
fn consumed_generation_is_unavailable() {
    let mut t = GenerationTracker::new(4, 1000);
    assert_eq!(t.consume(1, 5), Ok(()));
    assert_eq!(t.consume(1, 5), Err(SecretTreeError::SecretUnavailable));
    assert_eq!(t.consume(1, 3), Err(SecretTreeError::SecretUnavailable));
    assert_eq!(t.consume(1, 6), Ok(()));
    assert_eq!(t.next_generation, vec![0, 7, 0, 0]);
    assert_eq!(t.consume(0, 0), Ok(()));
}

#[test]
fn generation_beyond_forward_window_is_refused() {
    let mut t = GenerationTracker::new(2, 10);
    assert_eq!(t.consume(0, 11), Err(SecretTreeError::TooDistantInTheFuture));
    assert_eq!(t.consume(0, 10), Ok(()));
    assert_eq!(t.consume(0, 21), Ok(()));
    assert_eq!(t.consume(0, 33), Err(SecretTreeError::TooDistantInTheFuture));
    assert_eq!(t.consume(0, 32), Ok(()));
    assert_eq!(t.next_generation, vec![33, 0]);
}

#[test]
fn retention_boundary_with_two_past_epochs() {
    let mut s = EpochSecrets::new(2, 0, secret(0));
    for e in 1..=10u8 {
        s.advance(secret(e));
    }
    assert_eq!(s.current_epoch, 10);
    assert_eq!(s.get(10), Some(&secret(10)));
    assert_eq!(s.get(9), Some(&secret(9)));
    assert_eq!(s.get(8), Some(&secret(8)));
    assert_eq!(s.get(7), None);
    assert_eq!(s.get(11), None);
    assert_eq!(s.secrets.len(), 3);
}

#[test]
fn window_fills_before_dropping() {
    let mut s = EpochSecrets::new(2, 5, secret(5));
    assert_eq!(s.get(4), None);
    s.advance(secret(6));
    assert_eq!(s.get(5), Some(&secret(5)));
    s.advance(secret(7));
    s.advance(secret(8));
    assert_eq!(s.get(5), None);
    assert_eq!(s.get(6), Some(&secret(6)));
}

#[test]
fn no_past_epochs_keeps_only_current() {
    let mut s = EpochSecrets::new(0, 0, secret(0));
    s.advance(secret(1));
    assert_eq!(s.get(0), None);
    assert_eq!(s.get(1), Some(&secret(1)));
}

#[test]
fn retention_follows_group_config() {
    let config = MlsGroupConfig::builder().max_past_epochs(2).build();
    let mut s = EpochSecrets::from_config(&config, 0, secret(0));
    for e in 1..=5u8 {
        s.advance(secret(e));
    }
    assert_eq!(s.max_past_epochs, 2);
    assert_eq!(s.get(2), None);
    assert_eq!(s.get(3), Some(&secret(3)));
    assert_eq!(s.get(5), Some(&secret(5)));
}
