use dutree::display_duration_as_hms::Hms;
use dutree::display_letters_by_u8::count_to_letter;
use dutree::display_letters_by_u8::produce_letter;
use dutree::display_letters_by_u8::spaces_by_count;
use dutree::display_u64_as_file_size::DisplayFileSize;

#[test]
fn size_of_zero_is_plain_bytes() {
    assert_eq!(0u64.display_as_file_size(), "0 bytes");
}

#[test]
fn size_below_a_thousand_is_plain_bytes() {
    assert_eq!(999u64.display_as_file_size(), "999 bytes");
}

#[test]
fn size_of_a_thousand_becomes_kilobytes() {
    assert_eq!(1000u64.display_as_file_size(), "1.000 Kb");
}

#[test]
fn seven_digits_become_megabytes() {
    assert_eq!(1234567u64.display_as_file_size(), "1.234 Mb");
}

#[test]
fn ten_digits_become_gigabytes() {
    assert_eq!(1234567890u64.display_as_file_size(), "1.234 Gb");
}

#[test]
fn thirteen_digits_become_terabytes() {
    assert_eq!(1234567890123u64.display_as_file_size(), "1.234 Tb");
}

#[test]
fn beyond_terabytes_stays_terabytes() {
    assert_eq!(1234567890123456u64.display_as_file_size(), "1.234 Tb");
    assert_eq!(u64::MAX.display_as_file_size(), "18.446 Tb");
}

#[test]
fn commas_group_every_three_digits() {
    assert_eq!(0u64.add_commas(), "0");
    assert_eq!(12u64.add_commas(), "12");
    assert_eq!(100u64.add_commas(), "100");
    assert_eq!(1000u64.add_commas(), "1,000");
    assert_eq!(1234567u64.add_commas(), "1,234,567");
    assert_eq!(18446744073709551615u64.add_commas(), "18,446,744,073,709,551,615");
}

#[test]
fn short_durations_are_milliseconds() {
    assert_eq!(0u32.to_hms(), "0ms");
    assert_eq!(999u32.to_hms(), "999ms");
}

#[test]
fn durations_below_a_minute_are_seconds() {
    assert_eq!(1000u32.to_hms(), "1.0s");
    assert_eq!(1005u32.to_hms(), "1.5s");
    assert_eq!(59999u32.to_hms(), "59.999s");
}

#[test]
fn longer_durations_carry_minutes() {
    assert_eq!(60000u32.to_hms(), "1:0s 0ms");
    assert_eq!(123456u32.to_hms(), "2:3s 456ms");
}

#[test]
fn letters_repeat_by_count() {
    assert_eq!(count_to_letter(0, 'x'), "");
    assert_eq!(count_to_letter(3, 'a'), "aaa");
}

#[test]
fn produced_letters_fill_the_leftover_space() {
    assert_eq!(produce_letter(5, 2, '-'), "---");
    assert_eq!(produce_letter(2, 5, '-'), "");
    assert_eq!(produce_letter(4, 4, '-'), "");
}

#[test]
fn spaces_by_count_makes_spaces() {
    assert_eq!(spaces_by_count(0), "");
    assert_eq!(spaces_by_count(4), "    ");
}
