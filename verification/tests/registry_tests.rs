use pg_proxy::proxy::{handle_cancel, on_startup_info, StartupDecision};
use pg_proxy::codec::StartupInfo;
use pg_proxy::registry::{CancelKey, CancelRegistry};
use pg_proxy::startup::CancelData;

#[test]
fn register_lookup_deregister_lifecycle() {
    let mut reg: CancelRegistry<u64> = CancelRegistry::new();
    let key = CancelKey { process_id: 42, secret_key: 99 };
    assert!(reg.lookup(key).is_none());

    reg.register(key, 7);
    assert_eq!(reg.lookup(key), Some(&7));

    reg.deregister(key);
    assert!(reg.lookup(key).is_none());
}

#[test]
fn register_collision_latest_wins() {
    let mut reg: CancelRegistry<u64> = CancelRegistry::new();
    let key = CancelKey { process_id: 1, secret_key: 2 };
    reg.register(key, 10);
    reg.register(key, 20);
    assert_eq!(reg.lookup(key), Some(&20));
    reg.deregister(key);
    assert!(reg.lookup(key).is_none());
}

#[test]
fn deregister_absent_key_is_harmless() {
    let mut reg: CancelRegistry<u64> = CancelRegistry::new();
    let a = CancelKey { process_id: 1, secret_key: 1 };
    let b = CancelKey { process_id: 2, secret_key: 2 };
    reg.register(a, 1);
    reg.deregister(b);
    assert_eq!(reg.lookup(a), Some(&1));
}

#[test]
fn keys_differ_on_either_field() {
    let mut reg: CancelRegistry<u64> = CancelRegistry::new();
    reg.register(CancelKey { process_id: 1, secret_key: 1 }, 11);
    reg.register(CancelKey { process_id: 1, secret_key: 2 }, 12);
    reg.register(CancelKey { process_id: 2, secret_key: 1 }, 21);
    assert_eq!(reg.lookup(CancelKey { process_id: 1, secret_key: 1 }), Some(&11));
    assert_eq!(reg.lookup(CancelKey { process_id: 1, secret_key: 2 }), Some(&12));
    assert_eq!(reg.lookup(CancelKey { process_id: 2, secret_key: 1 }), Some(&21));
}

#[test]
fn cancel_for_unknown_key_is_dropped() {
    let reg: CancelRegistry<u64> = CancelRegistry::new();
    let data = CancelData { process_id: 5, secret_key: 6 };
    assert!(handle_cancel(&reg, &data).is_none());
}

#[test]
fn cancel_for_registered_key_finds_handle() {
    let mut reg: CancelRegistry<u64> = CancelRegistry::new();
    reg.register(CancelKey { process_id: 42, secret_key: 99 }, 77);
    let data = CancelData { process_id: 42, secret_key: 99 };
    assert_eq!(handle_cancel(&reg, &data), Some(&77));
}

#[test]
fn startup_info_cancel_decision_carries_key() {
    let info = StartupInfo::Cancel(CancelData { process_id: 42, secret_key: 99 });
    match on_startup_info(info) {
        StartupDecision::HandleCancel(k) => {
            assert_eq!(k.process_id, 42);
            assert_eq!(k.secret_key, 99);
        }
        other => panic!("expected cancel decision, got {:?}", other),
    }
}

#[test]
fn startup_info_startup_decision_parses_parameters() {
    let info = StartupInfo::Startup(b"user\0u\0\0".to_vec());
    match on_startup_info(info) {
        StartupDecision::Route(d) => {
            assert_eq!(d.get_parameter("user"), Some(&b"u".to_vec()));
        }
        other => panic!("expected route decision, got {:?}", other),
    }
}
