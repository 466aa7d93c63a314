use kvs::codec::{Command, KvsCommand};
use kvs::engines::{engine_switch_rejected, EngineKind};
use kvs::logset::{log_path, parse_generation, sorted_generation_list};
use kvs::server::KvsServer;
use kvs::wire::{
    decode_get_response, decode_remove_response, decode_request, decode_set_response,
    encode_get_response, encode_remove_response, encode_request, encode_set_response,
    interpret_get_response, interpret_remove_response, interpret_set_response, wire_frame,
    GetResponse, RemoveResponse, Request, SetResponse,
};
use kvs::KvStore;
use kvs::KvsEngine;
use kvs::KvsError;

#[test]
fn record_codec_round_trips_set() {
    let cmd = KvsCommand::set("key".to_string(), "value".to_string(), 7);
    let bytes = cmd.encode_to_vec();
    let decoded = KvsCommand::decode(&bytes).unwrap();
    assert_eq!(decoded, cmd);
    assert!(decoded.verify_checksum());
}

#[test]
fn record_codec_round_trips_remove() {
    let cmd = KvsCommand::remove("key".to_string(), 9);
    let bytes = cmd.encode_to_vec();
    let decoded = KvsCommand::decode(&bytes).unwrap();
    assert_eq!(decoded, cmd);
    assert!(decoded.verify_checksum());
}

#[test]
fn record_fields_are_stamped() {
    let cmd = KvsCommand::set("k".to_string(), "v".to_string(), 41);
    assert_eq!(cmd.version, 1);
    assert_eq!(cmd.sequence_number, 41);
    assert!(matches!(cmd.command, Some(Command::SetCmd { .. })));
}

#[test]
fn tampered_record_fails_verification() {
    let mut cmd = KvsCommand::set("k".to_string(), "v".to_string(), 1);
    cmd.checksum ^= 1;
    assert!(!cmd.verify_checksum());
}

#[test]
fn decode_rejects_garbage() {
    let err = KvsCommand::decode(&vec![0u8, 1, 2, 3]).unwrap_err();
    assert!(matches!(err, KvsError::Deserialize(_)));
    let err = KvsCommand::decode(&Vec::new()).unwrap_err();
    assert!(matches!(err, KvsError::Deserialize(_)));
}

#[test]
fn requests_round_trip() {
    let requests = vec![
        Request::GetKey { key: "a".to_string() },
        Request::SetKey { key: "a".to_string(), value: "b".to_string() },
        Request::RemoveKey { key: String::new() },
    ];
    for req in requests {
        let bytes = encode_request(&req);
        let decoded = decode_request(&bytes).unwrap();
        assert_eq!(decoded, req);
    }
}

#[test]
fn responses_round_trip() {
    let get_responses = vec![
        GetResponse::Success(None),
        GetResponse::Success(Some("value".to_string())),
        GetResponse::Failure("boom".to_string()),
    ];
    for resp in get_responses {
        let bytes = encode_get_response(&resp);
        assert_eq!(decode_get_response(&bytes).unwrap(), resp);
    }
    let set_responses = vec![SetResponse::Success, SetResponse::Failure("no".to_string())];
    for resp in set_responses {
        let bytes = encode_set_response(&resp);
        assert_eq!(decode_set_response(&bytes).unwrap(), resp);
    }
    let remove_responses =
        vec![RemoveResponse::Success, RemoveResponse::Failure("no".to_string())];
    for resp in remove_responses {
        let bytes = encode_remove_response(&resp);
        assert_eq!(decode_remove_response(&bytes).unwrap(), resp);
    }
}

#[test]
fn response_decoders_reject_garbage() {
    assert!(matches!(
        decode_get_response(&vec![9u8, 9, 9]),
        Err(KvsError::Deserialize(_))
    ));
    assert!(matches!(
        decode_set_response(&Vec::new()),
        Err(KvsError::Deserialize(_))
    ));
    assert!(matches!(
        decode_remove_response(&vec![1u8, 0]),
        Err(KvsError::Deserialize(_))
    ));
}

#[test]
fn wire_frames_are_big_endian() {
    let framed = wire_frame(vec![0xAB, 0xCD]).unwrap();
    assert_eq!(framed, vec![0x00, 0x00, 0x00, 0x02, 0xAB, 0xCD]);
}

#[test]
fn interpretations_lift_failures() {
    assert_eq!(
        interpret_get_response(GetResponse::Success(Some("v".to_string()))).unwrap(),
        Some("v".to_string())
    );
    assert!(matches!(
        interpret_get_response(GetResponse::Failure("e".to_string())),
        Err(KvsError::StringError(_))
    ));
    assert!(interpret_set_response(SetResponse::Success).is_ok());
    assert!(matches!(
        interpret_set_response(SetResponse::Failure("e".to_string())),
        Err(KvsError::StringError(_))
    ));
    assert!(interpret_remove_response(RemoveResponse::Success).is_ok());
    assert!(matches!(
        interpret_remove_response(RemoveResponse::Failure("e".to_string())),
        Err(KvsError::StringError(_))
    ));
}

fn frame_payload(framed: Vec<u8>) -> Vec<u8> {
    assert!(framed.len() >= 4);
    let prefix = framed[0..4].to_vec();
    let len = kvs::bytesutil::u32_from_be_bytes(&prefix) as usize;
    assert_eq!(len, framed.len() - 4);
    framed[4..].to_vec()
}

#[test]
fn server_answers_requests_over_the_wire() {
    let store = KvStore::open(Vec::new()).unwrap();
    let mut server = KvsServer::new(store);

    let set = encode_request(&Request::SetKey { key: "k".to_string(), value: "v1".to_string() });
    let reply = frame_payload(server.handle_request_bytes(&set).unwrap());
    assert_eq!(decode_set_response(&reply).unwrap(), SetResponse::Success);

    let get = encode_request(&Request::GetKey { key: "k".to_string() });
    let reply = frame_payload(server.handle_request_bytes(&get).unwrap());
    assert_eq!(
        decode_get_response(&reply).unwrap(),
        GetResponse::Success(Some("v1".to_string()))
    );

    let remove = encode_request(&Request::RemoveKey { key: "k".to_string() });
    let reply = frame_payload(server.handle_request_bytes(&remove).unwrap());
    assert_eq!(decode_remove_response(&reply).unwrap(), RemoveResponse::Success);

    let get = encode_request(&Request::GetKey { key: "k".to_string() });
    let reply = frame_payload(server.handle_request_bytes(&get).unwrap());
    assert_eq!(decode_get_response(&reply).unwrap(), GetResponse::Success(None));
}

#[test]
fn server_stringifies_engine_errors() {
    let store = KvStore::open(Vec::new()).unwrap();
    let mut server = KvsServer::new(store);
    let remove = encode_request(&Request::RemoveKey { key: "absent".to_string() });
    let reply = frame_payload(server.handle_request_bytes(&remove).unwrap());
    match decode_remove_response(&reply).unwrap() {
        RemoveResponse::Failure(message) => {
            assert_eq!(message, "Key not found");
        },
        RemoveResponse::Success => panic!("removing an absent key must not succeed"),
    }
}

#[test]
fn server_rejects_malformed_requests() {
    let store = KvStore::open(Vec::new()).unwrap();
    let mut server = KvsServer::new(store);
    let err = server.handle_request_bytes(&vec![0x7F, 0x00]).unwrap_err();
    assert!(matches!(err, KvsError::Deserialize(_)));
}

#[test]
fn log_path_names_files_by_generation() {
    assert_eq!(log_path(1), "1.log");
    assert_eq!(log_path(42), "42.log");
    assert_eq!(log_path(0), "0.log");
    assert_eq!(log_path(u64::MAX), format!("{}.log", u64::MAX));
}

#[test]
fn parse_generation_accepts_only_log_names() {
    assert_eq!(parse_generation(&"42.log".to_string()), Some(42));
    assert_eq!(parse_generation(&"007.log".to_string()), Some(7));
    assert_eq!(parse_generation(&"0.log".to_string()), Some(0));
    assert_eq!(parse_generation(&"abc.log".to_string()), None);
    assert_eq!(parse_generation(&"7.txt".to_string()), None);
    assert_eq!(parse_generation(&".log".to_string()), None);
    assert_eq!(parse_generation(&"12x34.log".to_string()), None);
    assert_eq!(parse_generation(&"99999999999999999999999.log".to_string()), None);
}

#[test]
fn sorted_generation_list_sorts_and_ignores_strangers() {
    let names = vec![
        "3.log".to_string(),
        "config.toml".to_string(),
        "1.log".to_string(),
        "10.log".to_string(),
        "junk".to_string(),
        "2.log".to_string(),
    ];
    let generations = sorted_generation_list(&names);
    assert_eq!(generations, vec![1, 2, 3, 10]);
}

#[test]
fn error_messages_are_stable() {
    assert_eq!(KvsError::KeyNotFound.to_message(), "Key not found");
    assert_eq!(KvsError::CorruptedData.to_message(), "Corrupted data");
    assert_eq!(
        KvsError::StringError("just this".to_string()).to_message(),
        "just this"
    );
}

#[test]
fn sled_engine_honors_the_engine_contract() {
    let db = sled::Config::new().temporary(true).open().unwrap();
    let mut engine = kvs::SledKvsEngine::new(db);
    engine.set("k".to_string(), "v1".to_string()).unwrap();
    assert_eq!(engine.get("k".to_string()).unwrap(), Some("v1".to_string()));
    engine.set("k".to_string(), "v2".to_string()).unwrap();
    assert_eq!(engine.get("k".to_string()).unwrap(), Some("v2".to_string()));
    engine.remove("k".to_string()).unwrap();
    assert_eq!(engine.get("k".to_string()).unwrap(), None);
    let err = engine.remove("k".to_string()).unwrap_err();
    assert!(matches!(err, KvsError::KeyNotFound));
}

#[test]
fn engine_switches_are_rejected_only_over_live_data() {
    assert!(engine_switch_rejected(EngineKind::Kvs, EngineKind::Sled, true));
    assert!(engine_switch_rejected(EngineKind::Sled, EngineKind::Kvs, true));
    assert!(!engine_switch_rejected(EngineKind::Kvs, EngineKind::Sled, false));
    assert!(!engine_switch_rejected(EngineKind::Kvs, EngineKind::Kvs, true));
}
