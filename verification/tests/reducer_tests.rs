use waveform::PeakPair;
use waveform::extract_waveform_peaks;
use waveform::generate_waveform;

#[test]
fn peaks_of_two_full_windows() {
    let buf: Vec<i32> = vec![100, -500, 300, 200];
    let peaks = extract_waveform_peaks(&buf, 2);
    assert_eq!(peaks.len(), 2);
    assert_eq!(peaks[0], PeakPair { min: -500, max: 100 });
    assert_eq!(peaks[1], PeakPair { min: 200, max: 300 });
}

#[test]
fn peaks_of_single_truncated_window() {
    let buf: Vec<i32> = vec![1000];
    let peaks = extract_waveform_peaks(&buf, 4);
    assert_eq!(peaks.len(), 1);
    assert_eq!(peaks[0], PeakPair { min: 1000, max: 1000 });
}

#[test]
fn peaks_of_empty_buffer() {
    let buf: Vec<i32> = Vec::new();
    assert_eq!(extract_waveform_peaks(&buf, 7).len(), 0);
    assert_eq!(extract_waveform_peaks(&buf, 0).len(), 0);
}

#[test]
fn peaks_of_zero_window_size() {
    let buf: Vec<i32> = vec![1, 2, 3];
    assert_eq!(extract_waveform_peaks(&buf, 0).len(), 0);
}

#[test]
fn peaks_count_rounds_up() {
    let buf: Vec<i32> = vec![5, -3, 8, 0, -9];
    assert_eq!(extract_waveform_peaks(&buf, 2).len(), 3);
    assert_eq!(extract_waveform_peaks(&buf, 5).len(), 1);
    assert_eq!(extract_waveform_peaks(&buf, 9).len(), 1);
    assert_eq!(extract_waveform_peaks(&buf, 1).len(), 5);
}

#[test]
fn peaks_last_window_holds_only_the_tail() {
    let buf: Vec<i32> = vec![5, -3, 8, 0, -9];
    let peaks = extract_waveform_peaks(&buf, 2);
    assert_eq!(peaks[0], PeakPair { min: -3, max: 5 });
    assert_eq!(peaks[1], PeakPair { min: 0, max: 8 });
    assert_eq!(peaks[2], PeakPair { min: -9, max: -9 });
}

#[test]
fn peaks_min_never_exceeds_max() {
    let buf: Vec<i32> = vec![4, 4, -7, -7, 0, 12, -12, i32::MAX, i32::MIN, 3];
    for w in 1..12usize {
        for p in extract_waveform_peaks(&buf, w) {
            assert!(p.min <= p.max);
        }
    }
}

#[test]
fn peaks_of_equal_samples() {
    let buf: Vec<i32> = vec![42, 42, 42];
    let peaks = extract_waveform_peaks(&buf, 3);
    assert_eq!(peaks, vec![PeakPair { min: 42, max: 42 }]);
}

#[test]
fn peaks_at_extreme_amplitudes() {
    let buf: Vec<i32> = vec![i32::MIN, i32::MAX];
    let peaks = extract_waveform_peaks(&buf, 2);
    assert_eq!(peaks, vec![PeakPair { min: i32::MIN, max: i32::MAX }]);
}

#[test]
fn envelope_of_two_full_windows() {
    let buf: Vec<i32> = vec![100, -500, 300, -800];
    let env = generate_waveform(&buf, 2);
    assert_eq!(env, vec![500, 800]);
}

#[test]
fn envelope_of_empty_buffer() {
    let buf: Vec<i32> = Vec::new();
    assert_eq!(generate_waveform(&buf, 3).len(), 0);
}

#[test]
fn envelope_of_zero_factor() {
    let buf: Vec<i32> = vec![1, 2, 3];
    assert_eq!(generate_waveform(&buf, 0).len(), 0);
}

#[test]
fn envelope_count_rounds_up() {
    let buf: Vec<i32> = vec![5, -3, 8, 0, -9];
    assert_eq!(generate_waveform(&buf, 2).len(), 3);
    assert_eq!(generate_waveform(&buf, 5).len(), 1);
    assert_eq!(generate_waveform(&buf, 9).len(), 1);
    assert_eq!(generate_waveform(&buf, 1).len(), 5);
}

#[test]
fn envelope_of_all_negative_window_is_positive() {
    let buf: Vec<i32> = vec![-3, -7, -2];
    let env = generate_waveform(&buf, 3);
    assert_eq!(env, vec![7]);
}

#[test]
fn envelope_of_all_zero_window_is_zero() {
    let buf: Vec<i32> = vec![0, 0, 0, 0];
    let env = generate_waveform(&buf, 2);
    assert_eq!(env, vec![0, 0]);
}

#[test]
fn envelope_values_are_nonnegative() {
    let buf: Vec<i32> = vec![-1, -2, -3, i32::MIN, 0, 9, -9];
    for d in 1..9usize {
        for value in generate_waveform(&buf, d) {
            assert!(value >= 0);
        }
    }
}

#[test]
fn envelope_widens_the_extreme_amplitude() {
    let buf: Vec<i32> = vec![i32::MIN];
    let env = generate_waveform(&buf, 1);
    assert_eq!(env, vec![2147483648i64]);
}

#[test]
fn envelope_of_truncated_tail() {
    let buf: Vec<i32> = vec![1, -4, 6];
    let env = generate_waveform(&buf, 2);
    assert_eq!(env, vec![4, 6]);
}
