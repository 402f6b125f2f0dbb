use nmea_capture::sentence::{fields_after_first_comma, split_talker_sentence};

fn labels(line: &str) -> (String, String) {
    split_talker_sentence(line)
}

#[test]
fn talker_and_mnemonic_of_tagged_lines() {
    assert_eq!(labels("$GPRMC,1,2*00"), ("GP".to_string(), "RMC".to_string()));
    assert_eq!(labels("!AIVDM,1"), ("AI".to_string(), "VDM".to_string()));
    assert_eq!(labels("$GNGGA"), ("GN".to_string(), "GGA".to_string()));
}

#[test]
fn untagged_or_short_lines_are_unknown() {
    assert_eq!(labels("GPRMC,1"), ("??".to_string(), "UNK".to_string()));
    assert_eq!(labels("$GPRM"), ("??".to_string(), "UNK".to_string()));
    assert_eq!(labels(""), ("??".to_string(), "UNK".to_string()));
}

#[test]
fn talker_positions_are_character_positions() {
    assert_eq!(labels("$\u{e9}1234"), ("\u{e9}1".to_string(), "234".to_string()));
    assert_eq!(labels("$\u{FFFD}GPRMC"), ("\u{FFFD}G".to_string(), "PRM".to_string()));
}

#[test]
fn six_characters_are_needed_not_six_bytes() {
    assert_eq!(labels("$GPR\u{e9}"), ("??".to_string(), "UNK".to_string()));
}

#[test]
fn fields_follow_the_first_comma_up_to_the_checksum() {
    assert_eq!(
        fields_after_first_comma("$GPRMC,123519,A,,x*6A"),
        Some(vec!["123519", "A", "", "x"])
    );
    assert_eq!(fields_after_first_comma("GPGLL,1,2"), Some(vec!["1", "2"]));
    assert_eq!(fields_after_first_comma("$!$GPVTG,a,"), Some(vec!["a", ""]));
    assert_eq!(fields_after_first_comma("$GPVTG,"), Some(vec![""]));
}

#[test]
fn no_comma_before_the_checksum_gives_none() {
    assert_eq!(fields_after_first_comma("$GPRMC*00"), None);
    assert_eq!(fields_after_first_comma("$GPRMC*0,0"), None);
    assert_eq!(fields_after_first_comma(""), None);
}

#[test]
fn fields_rejoined_give_the_data() {
    let line = "$GPGGA,123519,4807.038,N,,1,08*47";
    let fields = fields_after_first_comma(line).unwrap();
    assert_eq!(fields.join(","), "123519,4807.038,N,,1,08");
    assert!(fields.iter().all(|f| !f.contains(',')));
}
