use argand::config::{default_hop, Theme};
use argand::settings::{hop, is_power_of_two, repaired_fft_size, validate, MAX_FFT_SIZE};

#[test]
fn overlap_aliases_have_identical_requests_and_can_acknowledge_the_display() {
    for overlap in [75, 87, 90, 95] {
        assert_eq!(hop(4, overlap), 1);
    }
    assert_eq!(hop(4, 0), 4);
    assert_eq!(hop(2048, 75), 512);
    assert_eq!(hop(2048, 50), 1024);
    assert_eq!(hop(usize::MAX, 0), usize::MAX / 100 * 100 + usize::MAX % 100);
}

#[test]
fn settings_are_checked_in_order_and_name_the_first_problem() {
    assert_eq!(validate(3, 50, true, None), Err("FFT size must be a power of two from 2 to 1048576".to_owned()));
    assert_eq!(validate(MAX_FFT_SIZE * 2, 50, true, None).unwrap_err(), "FFT size must be a power of two from 2 to 1048576");
    assert_eq!(validate(1024, 100, false, None), Err("Overlap must be between 0 and 95%".to_owned()));
    assert_eq!(validate(1024, 50, false, None), Err("Display range must be finite and greater than zero".to_owned()));
    assert_eq!(validate(1024, 50, true, Some(32)), Err("The signal has 32 samples; choose a smaller FFT".to_owned()));
    assert_eq!(validate(1024, 95, true, Some(1024)), Ok(()));
    assert_eq!(validate(2, 0, true, None), Ok(()));
}

#[test]
fn configuration_defaults_obey_the_same_limits_as_saved_and_interactive_settings() {
    assert!(is_power_of_two(1));
    assert!(is_power_of_two(1 << 40));
    assert!(!is_power_of_two(0));
    assert!(!is_power_of_two(12));
    assert_eq!(repaired_fft_size(1), 2048);
    assert_eq!(repaired_fft_size(3), 2048);
    assert_eq!(repaired_fft_size(4096), 4096);
    assert_eq!(repaired_fft_size(usize::MAX / 2 + 1), usize::MAX / 2 + 1);
    assert_eq!(default_hop(2), 1);
    assert_eq!(default_hop(2048), 512);
    assert_eq!(Theme::default(), Theme::Dark);
}
