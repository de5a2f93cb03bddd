//! The scenarios that every sharded cache goes through.

use senba_research::experimental::concurrent_test_suite as suite;
use senba_research::experimental::sieve_c10s::ConcurrentSieveCache as C10s;
use senba_research::experimental::sieve_c12s::ConcurrentSieveCache as C12s;
use senba_research::experimental::sieve_c16s::ConcurrentSieveCache as C16s;
use senba_research::experimental::sieve_c17s::ConcurrentSieveCache as C17s;
use senba_research::experimental::sieve_r3::ConcurrentSieveR3 as R3;
use senba_research::experimental::sieve_r4::ConcurrentSieveCache as R4;

#[test]
fn suite_cache_initially_empty() {
    assert!(suite::cache_initially_empty::<C10s<u64, u64, 8>>());
    assert!(suite::cache_initially_empty::<C12s<u64, u64, 8>>());
    assert!(suite::cache_initially_empty::<C16s<u64, u64, 8>>());
    assert!(suite::cache_initially_empty::<C17s<u64, u64, 8>>());
    assert!(suite::cache_initially_empty::<R3<u64, u64, 8>>());
    assert!(suite::cache_initially_empty::<R4<u64, u64, 8>>());
}

#[test]
fn suite_insert_then_get() {
    assert!(suite::insert_then_get::<C10s<u64, u64, 8>>());
    assert!(suite::insert_then_get::<C12s<u64, u64, 8>>());
    assert!(suite::insert_then_get::<C16s<u64, u64, 8>>());
    assert!(suite::insert_then_get::<C17s<u64, u64, 8>>());
    assert!(suite::insert_then_get::<R3<u64, u64, 8>>());
    assert!(suite::insert_then_get::<R4<u64, u64, 8>>());
}

#[test]
fn suite_get_missing_returns_none() {
    assert!(suite::get_missing_returns_none::<C10s<u64, u64, 8>>());
    assert!(suite::get_missing_returns_none::<C12s<u64, u64, 8>>());
    assert!(suite::get_missing_returns_none::<C16s<u64, u64, 8>>());
    assert!(suite::get_missing_returns_none::<C17s<u64, u64, 8>>());
    assert!(suite::get_missing_returns_none::<R3<u64, u64, 8>>());
    assert!(suite::get_missing_returns_none::<R4<u64, u64, 8>>());
}

#[test]
fn suite_contains_key_reflects_insertions() {
    assert!(suite::contains_key_reflects_insertions::<C10s<u64, u64, 8>>());
    assert!(suite::contains_key_reflects_insertions::<C12s<u64, u64, 8>>());
    assert!(suite::contains_key_reflects_insertions::<C16s<u64, u64, 8>>());
    assert!(suite::contains_key_reflects_insertions::<C17s<u64, u64, 8>>());
    assert!(suite::contains_key_reflects_insertions::<R3<u64, u64, 8>>());
    assert!(suite::contains_key_reflects_insertions::<R4<u64, u64, 8>>());
}

#[test]
fn suite_insert_existing_key_updates_value() {
    assert!(suite::insert_existing_key_updates_value::<C10s<u64, u64, 8>>());
    assert!(suite::insert_existing_key_updates_value::<C12s<u64, u64, 8>>());
    assert!(suite::insert_existing_key_updates_value::<C16s<u64, u64, 8>>());
    assert!(suite::insert_existing_key_updates_value::<C17s<u64, u64, 8>>());
    assert!(suite::insert_existing_key_updates_value::<R3<u64, u64, 8>>());
    assert!(suite::insert_existing_key_updates_value::<R4<u64, u64, 8>>());
}

#[test]
fn suite_self_insert_self_get_visibility() {
    assert!(suite::self_insert_self_get_visibility::<C10s<u64, u64, 8>>());
    assert!(suite::self_insert_self_get_visibility::<C12s<u64, u64, 8>>());
    assert!(suite::self_insert_self_get_visibility::<C16s<u64, u64, 8>>());
    assert!(suite::self_insert_self_get_visibility::<C17s<u64, u64, 8>>());
    assert!(suite::self_insert_self_get_visibility::<R3<u64, u64, 8>>());
    assert!(suite::self_insert_self_get_visibility::<R4<u64, u64, 8>>());
}

#[test]
fn suite_total_capacity_is_respected_under_churn() {
    assert_eq!(suite::total_capacity_is_respected_under_churn::<C10s<u64, u64, 8>>(), 128);
    assert_eq!(suite::total_capacity_is_respected_under_churn::<C12s<u64, u64, 8>>(), 128);
    assert_eq!(suite::total_capacity_is_respected_under_churn::<C16s<u64, u64, 8>>(), 128);
    assert_eq!(suite::total_capacity_is_respected_under_churn::<C17s<u64, u64, 8>>(), 128);
    assert_eq!(suite::total_capacity_is_respected_under_churn::<R3<u64, u64, 8>>(), 128);
    assert_eq!(suite::total_capacity_is_respected_under_churn::<R4<u64, u64, 8>>(), 128);
}

#[test]
fn suite_churn_keeps_a_full_capacity_set() {
    assert_eq!(suite::churn_keeps_a_full_capacity_set::<C10s<u64, u64, 8>>(), (128, 128));
    assert_eq!(suite::churn_keeps_a_full_capacity_set::<C12s<u64, u64, 8>>(), (128, 128));
    assert_eq!(suite::churn_keeps_a_full_capacity_set::<C16s<u64, u64, 8>>(), (128, 128));
    assert_eq!(suite::churn_keeps_a_full_capacity_set::<C17s<u64, u64, 8>>(), (128, 128));
    assert_eq!(suite::churn_keeps_a_full_capacity_set::<R3<u64, u64, 8>>(), (128, 128));
    assert_eq!(suite::churn_keeps_a_full_capacity_set::<R4<u64, u64, 8>>(), (128, 128));
}
