use halo2_gpu_prover::device::{to_result, Error as DeviceError, SUCCESS};
use halo2_gpu_prover::Error;

#[test]
fn success_hands_the_value_on() {
    assert!(matches!(to_result(5u8, SUCCESS, "copy"), Ok(5)));
}

#[test]
fn failure_keeps_code_and_context() {
    assert!(matches!(
        to_result((), 2, "fail to run cudaStreamCreate"),
        Err(DeviceError { code: 2, context: "fail to run cudaStreamCreate" })
    ));
}

#[test]
fn device_errors_become_errors_of_the_prover() {
    let e = Error::from(DeviceError { code: 7, context: "alloc" });
    assert!(matches!(e, Error::DeviceError(DeviceError { code: 7, context: "alloc" })));
}
