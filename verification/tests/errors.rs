use wave_conservation::WaveError;

#[test]
fn error_messages() {
    assert_eq!(WaveError::EmptyGraph.message(), "graph has zero nodes");
    assert_eq!(WaveError::Disconnected.message(), "graph is disconnected");
    assert_eq!(
        WaveError::InvalidParameter("negative damping".to_string()).message(),
        "invalid parameter: negative damping"
    );
    assert_eq!(
        WaveError::NoConvergence { iterations: 100 }.message(),
        "eigenvalue computation did not converge after 100 iterations"
    );
    assert_eq!(
        WaveError::IndexOutOfBounds { index: 5, len: 2 }.message(),
        "index 5 out of bounds (len 2)"
    );
    assert_eq!(
        WaveError::IndexOutOfBounds { index: 0, len: 18446744073709551615 }.message(),
        "index 0 out of bounds (len 18446744073709551615)"
    );
}
