use spektra::pipeline::Channel;
use spektra::text::{
    channel_label, linear_freq_label, log_freq_label, overlap_label, push_decimal,
    push_signed_decimal, time_label,
};

#[test]
fn decimals() {
    let mut s = String::from("x=");
    push_decimal(&mut s, 0);
    assert_eq!(s, "x=0");
    let mut s = String::new();
    push_decimal(&mut s, u64::MAX);
    assert_eq!(s, u64::MAX.to_string());
    let mut s = String::new();
    push_signed_decimal(&mut s, i64::MIN);
    assert_eq!(s, i64::MIN.to_string());
    let mut s = String::new();
    push_signed_decimal(&mut s, -42);
    assert_eq!(s, "-42");
}

#[test]
fn time_labels() {
    assert_eq!(time_label(0), "0:00");
    assert_eq!(time_label(5), "0:05");
    assert_eq!(time_label(75), "1:15");
    assert_eq!(time_label(600), "10:00");
    assert_eq!(time_label(3599), "59:59");
}

#[test]
fn frequency_labels() {
    assert_eq!(linear_freq_label(0), "0");
    assert_eq!(linear_freq_label(5000), "5 kHz");
    assert_eq!(linear_freq_label(20000), "20 kHz");
    assert_eq!(log_freq_label(20), "20 Hz");
    assert_eq!(log_freq_label(500), "500 Hz");
    assert_eq!(log_freq_label(1000), "1 kHz");
    assert_eq!(log_freq_label(48000), "48 kHz");
}

#[test]
fn channel_labels() {
    assert_eq!(channel_label(1, Channel::Split), "Mono");
    assert_eq!(channel_label(0, Channel::Mix), "Mono");
    assert_eq!(channel_label(2, Channel::Mix), "Mix");
    assert_eq!(channel_label(2, Channel::Split), "L+R");
    assert_eq!(channel_label(6, Channel::Left), "L");
    assert_eq!(channel_label(2, Channel::Right), "R");
}

#[test]
fn overlap_labels() {
    assert_eq!(overlap_label(0), "OL: 0%");
    assert_eq!(overlap_label(50), "OL: 50%");
    assert_eq!(overlap_label(75), "OL: 75%");
    assert_eq!(overlap_label(10), "OL: 75%");
}
