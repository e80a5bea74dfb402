use virtual_display_driver_cli::iddcx::{IddCxError, NtStatus, STATUS_NOT_FOUND};

#[test]
fn unavailable_function_is_status_not_found() {
    let error = IddCxError::IddCxFunctionNotAvailable("IddCxMonitorCreate is not available");
    assert_eq!(NtStatus::from(error), NtStatus(STATUS_NOT_FOUND));
    assert_eq!(STATUS_NOT_FOUND as u32, 0xC000_0225);
}

#[test]
fn failed_call_keeps_its_status() {
    assert_eq!(NtStatus::from(IddCxError::CallFailed(NtStatus(-5))), NtStatus(-5));
    assert_eq!(NtStatus::from(IddCxError::NtStatus(NtStatus(17))), NtStatus(17));
}

#[test]
fn status_becomes_failed_call() {
    assert_eq!(IddCxError::from(NtStatus(-3)), IddCxError::CallFailed(NtStatus(-3)));
}

#[test]
fn number_becomes_status_error() {
    assert_eq!(IddCxError::from(-1073741823), IddCxError::NtStatus(NtStatus(-1073741823)));
    assert_eq!(IddCxError::from(0), IddCxError::NtStatus(NtStatus(0)));
}
