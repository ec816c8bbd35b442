use yeelight_core::command::encode_command;
use yeelight_core::command::CommandAction;
use yeelight_core::command::CommandCall;
use yeelight_core::command::CommandEvent;
use yeelight_core::command::CommandOutcome;
use yeelight_core::command::RESPONSE_BUFFER_LEN;

#[test]
fn encode_set_power_is_exact() {
    let line = encode_command("set_power", "\"on\"");
    assert_eq!(
        line.as_bytes(),
        b"{\"id\":0,\"method\":\"set_power\",\"params\":[\"on\"]}\r\n"
    );
}

#[test]
fn encode_numeric_params() {
    let line = encode_command("set_bright", "50");
    assert_eq!(line, "{\"id\":0,\"method\":\"set_bright\",\"params\":[50]}\r\n");
    let rgb = encode_command("set_rgb", "16711680");
    assert_eq!(rgb, "{\"id\":0,\"method\":\"set_rgb\",\"params\":[16711680]}\r\n");
}

#[test]
fn response_buffer_is_bounded() {
    assert_eq!(RESPONSE_BUFFER_LEN, 2000);
}

#[test]
fn successful_invocation_walks_connect_write_read() {
    let mut call = CommandCall::new("10.0.0.2:55443", "set_power", "\"off\"");
    assert_eq!(call.address(), "10.0.0.2:55443");
    assert_eq!(call.action(), CommandAction::Connect);
    assert!(call.outcome().is_none());

    call.step(CommandEvent::Connected);
    assert_eq!(call.action(), CommandAction::Write);
    assert_eq!(
        call.message().as_bytes(),
        b"{\"id\":0,\"method\":\"set_power\",\"params\":[\"off\"]}\r\n"
    );

    call.step(CommandEvent::WriteOk);
    assert_eq!(call.action(), CommandAction::Read);

    call.step(CommandEvent::Response { bytes: b"{\"id\":0,\"result\":[\"ok\"]}".to_vec() });
    assert!(call.finished());
    assert_eq!(call.action(), CommandAction::Done);
    match call.outcome().unwrap() {
        CommandOutcome::Success { response } => {
            assert_eq!(response.as_slice(), b"{\"id\":0,\"result\":[\"ok\"]}");
        }
        other => panic!("unexpected outcome {:?}", other),
    }
}

#[test]
fn refused_connection_reports_connect_failed_without_write() {
    let mut call = CommandCall::new("10.0.0.9:55443", "set_power", "\"on\"");
    assert_eq!(call.action(), CommandAction::Connect);
    call.step(CommandEvent::ConnectRefused);
    assert!(call.finished());
    // the invocation is closed: no write (and no read) is ever requested
    assert_eq!(call.action(), CommandAction::Done);
    assert_eq!(call.outcome().unwrap(), &CommandOutcome::ConnectFailed);
}

#[test]
fn failed_write_aborts_without_read() {
    let mut call = CommandCall::new("10.0.0.2:55443", "set_ct_abx", "6500");
    call.step(CommandEvent::Connected);
    assert_eq!(call.action(), CommandAction::Write);
    call.step(CommandEvent::WriteFailed);
    assert!(call.finished());
    assert_eq!(call.action(), CommandAction::Done);
    assert_eq!(call.outcome().unwrap(), &CommandOutcome::SendFailed);
}

#[test]
fn failed_read_still_counts_as_sent() {
    let mut call = CommandCall::new("10.0.0.2:55443", "set_bright", "75");
    call.step(CommandEvent::Connected);
    call.step(CommandEvent::WriteOk);
    assert_eq!(call.action(), CommandAction::Read);
    call.step(CommandEvent::ReadFailed);
    assert!(call.finished());
    assert_eq!(call.outcome().unwrap(), &CommandOutcome::ReadFailed);
}

#[test]
fn repeated_command_runs_independent_lifecycles() {
    // the same command twice: each invocation starts fresh at Connect and
    // carries nothing over from the other
    let mut first = CommandCall::new("10.0.0.2:55443", "set_power", "\"on\"");
    assert_eq!(first.action(), CommandAction::Connect);
    first.step(CommandEvent::Connected);
    first.step(CommandEvent::WriteOk);
    first.step(CommandEvent::Response { bytes: b"ok".to_vec() });
    assert!(first.finished());

    let mut second = CommandCall::new("10.0.0.2:55443", "set_power", "\"on\"");
    assert_eq!(second.action(), CommandAction::Connect);
    assert!(second.outcome().is_none());
    assert_eq!(second.message(), first.message());
    second.step(CommandEvent::Connected);
    second.step(CommandEvent::WriteOk);
    second.step(CommandEvent::Response { bytes: b"ok".to_vec() });

    // identical event histories ended in identical outcomes, and the first
    // invocation's record was not disturbed by the second
    assert_eq!(first.outcome().unwrap(), second.outcome().unwrap());
}

#[test]
fn closed_invocation_absorbs_late_events() {
    let mut call = CommandCall::new("10.0.0.2:55443", "set_power", "\"on\"");
    call.step(CommandEvent::ConnectRefused);
    call.step(CommandEvent::Connected);
    call.step(CommandEvent::WriteOk);
    assert_eq!(call.outcome().unwrap(), &CommandOutcome::ConnectFailed);
}
