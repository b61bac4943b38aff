use d3_format::limits::{DEFAULT_MAX_OUTPUT_BYTES, DEFAULT_MAX_WIDTH_UTF16};
use d3_format::{FormatError, FormatLimits};

#[test]
fn defaults_match_section_5_4() {
    let limits = FormatLimits::default();
    assert_eq!(limits.max_width_utf16, 1_000_000);
    assert_eq!(limits.max_output_bytes, 16 * 1024 * 1024);
    assert_eq!(
        limits,
        FormatLimits {
            max_width_utf16: DEFAULT_MAX_WIDTH_UTF16,
            max_output_bytes: DEFAULT_MAX_OUTPUT_BYTES,
        }
    );
}

#[test]
fn errors_describe_themselves() {
    let error = FormatError::OutputLimit {
        requested: 20,
        maximum: 10,
    };
    assert_eq!(
        error.to_string(),
        "formatted output would be 20 bytes, over the 10 byte limit"
    );
    assert_eq!(FormatError::AllocationFailed.to_string(), "allocation failed");
}
