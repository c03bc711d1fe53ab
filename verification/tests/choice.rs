use kvs::engine::choice::{ChoiceError, EngineKind};

#[test]
fn engine_names() {
    assert_eq!(EngineKind::from_name("kvs"), Some(EngineKind::Kvs));
    assert_eq!(EngineKind::from_name("sled"), Some(EngineKind::Sled));
    assert_eq!(EngineKind::from_name("KVS"), None);
    assert_eq!(EngineKind::from_name("kv"), None);
    assert_eq!(EngineKind::from_name("kvss"), None);
    assert_eq!(EngineKind::from_name(""), None);
}

#[test]
fn engine_asked_for_has_to_be_the_one_recorded() {
    assert_eq!(EngineKind::select("kvs", None), Ok(EngineKind::Kvs));
    assert_eq!(EngineKind::select("sled", None), Ok(EngineKind::Sled));
    assert_eq!(EngineKind::select("kvs", Some("kvs")), Ok(EngineKind::Kvs));
    assert_eq!(EngineKind::select("sled", Some("sled")), Ok(EngineKind::Sled));
    assert_eq!(EngineKind::select("kvs", Some("sled")), Err(ChoiceError::Mismatch));
    assert_eq!(EngineKind::select("sled", Some("kvs")), Err(ChoiceError::Mismatch));
    assert_eq!(EngineKind::select("kvs", Some("kvs\n")), Err(ChoiceError::Mismatch));
    assert_eq!(EngineKind::select("rocks", None), Err(ChoiceError::Invalid));
    assert_eq!(EngineKind::select("rocks", Some("rocks")), Err(ChoiceError::Invalid));
}

#[test]
fn choice_error_messages() {
    assert_eq!(ChoiceError::Invalid.message(), "Invalid engine");
    assert_eq!(ChoiceError::Mismatch.message(), "Engine mismatch");
}
