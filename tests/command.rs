use resp_server::{
    next_action, process_command, reply_for, respond, DecodeError, Decoder, ProtocolError,
    RespValue, Step,
};

#[test]
fn ping_is_answered_in_any_case() {
    assert_eq!(process_command("PING"), Some(b"+PONG\r\n".to_vec()));
    assert_eq!(process_command("ping"), Some(b"+PONG\r\n".to_vec()));
    assert_eq!(process_command("PiNg"), Some(b"+PONG\r\n".to_vec()));
    assert_eq!(process_command("ECHO"), None);
    assert_eq!(process_command("PINGS"), None);
}

#[test]
fn reply_takes_the_upper_cased_name() {
    assert_eq!(reply_for("PING"), Some(b"+PONG\r\n".to_vec()));
    assert_eq!(reply_for("ping"), None);
    assert_eq!(reply_for(""), None);
}

#[test]
fn array_of_commands_is_answered_in_order() {
    let value = RespValue::Array(vec![
        RespValue::BulkString("ping".into()),
        RespValue::BulkString("GET".into()),
        RespValue::BulkString("PING".into()),
    ]);
    let r = respond(&value);
    assert_eq!(r.output, b"+PONG\r\n+PONG\r\n".to_vec());
    assert_eq!(r.error, None);
}

#[test]
fn values_that_are_not_commands_are_violations() {
    let r = respond(&RespValue::SimpleString("PING".into()));
    assert!(r.output.is_empty());
    assert_eq!(r.error, Some(ProtocolError::NotAnArray));
    let value = RespValue::Array(vec![
        RespValue::BulkString("PING".into()),
        RespValue::SimpleString("PING".into()),
        RespValue::BulkString("PING".into()),
    ]);
    let r = respond(&value);
    assert_eq!(r.output, b"+PONG\r\n".to_vec());
    assert_eq!(r.error, Some(ProtocolError::NotABulkString));
}

#[test]
fn ping_request_gets_pong() {
    let mut decoder = Decoder::new(b"*1\r\n$4\r\nPING\r\n".to_vec());
    let action = next_action(decoder.next(), false);
    assert_eq!(action.output, b"+PONG\r\n".to_vec());
    assert_eq!(action.step, Step::Continue);
    let action = next_action(decoder.next(), true);
    assert!(action.output.is_empty());
    assert_eq!(action.step, Step::Finished);
}

#[test]
fn connection_steps_follow_the_decode_outcome() {
    assert_eq!(next_action(None, false).step, Step::NeedInput);
    assert_eq!(
        next_action(Some(Err(DecodeError::Truncated)), false).step,
        Step::NeedInput
    );
    assert_eq!(
        next_action(Some(Err(DecodeError::Truncated)), true).step,
        Step::DecodeFailed(DecodeError::Truncated)
    );
    assert_eq!(
        next_action(Some(Err(DecodeError::InvalidMarker(b'@'))), false).step,
        Step::DecodeFailed(DecodeError::InvalidMarker(b'@'))
    );
    assert_eq!(
        next_action(Some(Ok(RespValue::BulkString("PING".into()))), false).step,
        Step::ProtocolFailed(ProtocolError::NotAnArray)
    );
}
