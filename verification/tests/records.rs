use nmea_capture::dds_types::{RawSentence, Source};
use nmea_capture::records::{
    can_republish, parse_gga, parse_lat, parse_lon, parse_rmc, republish, split_deg_min, Republish,
};
use nmea_capture::text::parse_unsigned;

#[test]
fn degrees_and_minutes_split_two_places_before_the_point() {
    assert_eq!(split_deg_min("4807.038"), Some((48, "07.038")));
    assert_eq!(split_deg_min("01131.000"), Some((11, "31.000")));
    assert_eq!(split_deg_min("7.5"), Some((0, "7.5")));
    assert_eq!(split_deg_min("ab07.0"), Some((0, "07.0")));
    assert_eq!(split_deg_min("4807"), None);
}

#[test]
fn coordinates_that_cannot_be_cut_are_unknown() {
    assert_eq!(split_deg_min("\u{FFFD}5.5"), None);
    assert!(parse_lat("\u{FFFD}5.5", "S").is_none());
    assert_eq!(split_deg_min("\u{e9}12.5"), Some((0, "12.5")));
    let mut seq = 0u64;
    let r = parse_rmc("$GPRMC,1,A,\u{e9}1.5,N,\u{FFFD}5.5,E,,,,", 0, &mut seq).unwrap();
    assert!(r.lat_deg.is_none() && r.lon_deg.is_none());
    assert_eq!(seq, 1);
}

#[test]
fn hemisphere_only_sets_the_sign() {
    for hemi in ["", "N", "s", "W", "Sx"] {
        let a = parse_lat("4807.038", hemi).unwrap();
        let b = parse_lat("4807.038", "S").unwrap();
        assert_eq!((a.degrees, a.minutes.clone()), (b.degrees, b.minutes.clone()));
        assert_eq!(a.negative, hemi.starts_with('S'));
        assert!(b.negative);
    }
}

#[test]
fn latitude_and_longitude_hemispheres() {
    let s = parse_lat("4807.038", "S").unwrap();
    assert_eq!((s.degrees, s.minutes.as_str(), s.negative), (48, "07.038", true));
    assert!(!parse_lat("4807.038", "N").unwrap().negative);
    assert!(!parse_lat("4807.038", "").unwrap().negative);
    assert!(parse_lon("01131.000", "W").unwrap().negative);
    assert!(!parse_lon("01131.000", "S").unwrap().negative);
    assert!(parse_lat("", "S").is_none());
    assert!(parse_lon("4807", "E").is_none());
}

#[test]
fn rmc_sentence_is_read() {
    let mut seq = 0u64;
    let line = "$GPRMC,123519,A,4807.038,N,01131.000,E,022.4,084.4,230394,003.1,W*6A";
    let r = parse_rmc(line, 77, &mut seq).unwrap();
    assert_eq!(seq, 1);
    assert_eq!(r.seq, 1);
    assert_eq!(r.utc_time, "123519");
    assert_eq!(r.status, 'A');
    let lat = r.lat_deg.unwrap();
    assert_eq!((lat.degrees, lat.minutes.as_str(), lat.negative), (48, "07.038", false));
    let lon = r.lon_deg.unwrap();
    assert_eq!((lon.degrees, lon.minutes.as_str(), lon.negative), (11, "31.000", false));
    assert_eq!(r.sog_knots, "022.4");
    assert_eq!(r.cog_deg, "084.4");
    assert_eq!(r.utc_date, "230394");
    assert_eq!(r.mag_var, "003.1");
    assert_eq!(r.mag_var_ew, 'W');
    assert_eq!(r.mode, "");
    assert_eq!(r.ts_unix_ms, 77);
}

#[test]
fn rmc_defaults_and_mode_field() {
    let mut seq = 41u64;
    let r = parse_rmc("$GPRMC,,,,,,,,,,,E,A", 0, &mut seq).unwrap();
    assert_eq!(seq, 42);
    assert_eq!(r.status, 'V');
    assert!(r.lat_deg.is_none() && r.lon_deg.is_none());
    assert_eq!(r.mag_var_ew, 'E');
    assert_eq!(r.mode, "A");
    let r = parse_rmc("$GPRMC,,,,,,,,,,", 0, &mut seq).unwrap();
    assert_eq!(r.mag_var_ew, '\0');
    assert_eq!(r.mode, "");
    let r = parse_rmc("$GNRMC,1,A,,,,,,,,,E,x,D*00", 0, &mut seq).unwrap();
    assert_eq!(r.mode, "x");
    assert_eq!(seq, 44);
}

#[test]
fn rmc_mode_is_the_field_after_the_variation_direction() {
    let mut seq = 0u64;
    let line = "$GNRMC,123519,A,4800.000,N,01130.000,E,0.5,90.0,230394,,,D,V*00";
    let r = parse_rmc(line, 0, &mut seq).unwrap();
    assert_eq!(r.mode, "D");
    assert_eq!(r.mag_var_ew, '\0');
}

#[test]
fn records_are_numbered_one_after_another() {
    let mut seq = 0u64;
    let lines = [
        "$GPRMC,1,A,,,,,,,,",
        "$GPRMC,short",
        "$GPRMC,2,A,,,,,,,,",
        "junk",
        "$GPRMC,3,V,,,,,,,,",
    ];
    let numbers: Vec<u64> = lines
        .iter()
        .filter_map(|l| parse_rmc(l, 0, &mut seq).map(|r| r.seq))
        .collect();
    assert_eq!(numbers, vec![1, 2, 3]);
    assert_eq!(seq, 3);
}

#[test]
fn short_rmc_leaves_the_counter() {
    let mut seq = 5u64;
    assert!(parse_rmc("$GPRMC,1,2,3,4,5,6,7,8,9", 0, &mut seq).is_none());
    assert!(parse_rmc("$GPRMC", 0, &mut seq).is_none());
    assert_eq!(seq, 5);
}

#[test]
fn gga_sentence_is_read() {
    let mut seq = 0u64;
    let line = "$GPGGA,123519,4807.038,N,01131.000,W,1,08,0.9,545.4,M,46.9,M,,*47";
    let g = parse_gga(line, 9, &mut seq).unwrap();
    assert_eq!(seq, 1);
    assert_eq!(g.seq, 1);
    assert_eq!(g.utc_time, "123519");
    assert!(!g.lat_deg.unwrap().negative);
    let lon = g.lon_deg.unwrap();
    assert_eq!((lon.degrees, lon.negative), (11, true));
    assert_eq!(g.fix_quality, 1);
    assert_eq!(g.num_sats, 8);
    assert_eq!(g.hdop, "0.9");
    assert_eq!(g.altitude_m, "545.4");
    assert_eq!(g.geoid_sep_m, "46.9");
    assert_eq!(g.ts_unix_ms, 9);
}

#[test]
fn gga_counts_that_do_not_read_are_zero() {
    let mut seq = 0u64;
    let g = parse_gga("$GPGGA,1,,,,,70000,-3,,,,", 0, &mut seq).unwrap();
    assert_eq!((g.fix_quality, g.num_sats), (0, 0));
    let g = parse_gga("$GPGGA,1,,,,,+2,007,,,,", 0, &mut seq).unwrap();
    assert_eq!((g.fix_quality, g.num_sats), (2, 7));
    assert!(parse_gga("$GPGGA,1,2,3,4,5,6,7,8,9,10", 0, &mut seq).is_none());
    assert_eq!(seq, 2);
}

#[test]
fn unsigned_numbers_read_like_str_parse() {
    assert_eq!(parse_unsigned("65535", 65535), Some(65535));
    assert_eq!(parse_unsigned("65536", 65535), None);
    assert_eq!(parse_unsigned("4294967295", 4294967295), Some(4294967295));
    assert_eq!(parse_unsigned("+0012", 65535), Some(12));
    assert_eq!(parse_unsigned("+", 65535), None);
    assert_eq!(parse_unsigned("", 65535), None);
    assert_eq!(parse_unsigned("1 ", 65535), None);
    assert_eq!(parse_unsigned("99999999999", 65535), None);
    for text in ["0", "+7", "12a", "-1", "65535", "65536", "++1"] {
        assert_eq!(parse_unsigned(text, 65535), text.parse::<u16>().ok().map(u64::from));
    }
}

fn raw(sentence: &str, line: &str) -> RawSentence {
    RawSentence {
        id: 1,
        talker: "GP".to_string(),
        sentence: sentence.to_string(),
        checksum_ok: false,
        ts_unix_ms: 123,
        src: Source::udp("127.0.0.1".to_string(), 1100),
        raw: line.to_string(),
    }
}

#[test]
fn republish_chooses_by_mnemonic() {
    let (mut rmc, mut gga) = (0u64, 10u64);
    let r = raw("RMC", "$GPRMC,1,A,,,,,,,,");
    assert!(can_republish(&r, rmc, gga));
    match republish(&r, &mut rmc, &mut gga) {
        Republish::Rmc(x) => assert_eq!((x.seq, x.ts_unix_ms), (1, 123)),
        other => panic!("unexpected {:?}", other),
    }
    let g = raw("GGA", "$GPGGA,1,,,,,1,2,,,,");
    match republish(&g, &mut rmc, &mut gga) {
        Republish::Gga(x) => assert_eq!(x.seq, 11),
        other => panic!("unexpected {:?}", other),
    }
    assert!(matches!(republish(&raw("VTG", "$GPVTG,1,2"), &mut rmc, &mut gga), Republish::Nothing));
    assert!(matches!(republish(&raw("RMC", "$GPRMC,1"), &mut rmc, &mut gga), Republish::Nothing));
    assert_eq!((rmc, gga), (1, 11));
}

#[test]
fn republish_input_checks() {
    let line = "$GPRMC,1,A,4807.0,N,,,,,,";
    assert!(can_republish(&raw("RMC", line), 0, u64::MAX));
    assert!(!can_republish(&raw("RMC", line), u64::MAX, 0));
    assert!(can_republish(&raw("RMC", "$GPRMC,1"), u64::MAX, 0));
    assert!(can_republish(&raw("RMC", "$GPRMC,1,A,\u{e9}1.5,N,,,,,,"), 0, 0));
    assert!(can_republish(&raw("VTG", line), u64::MAX, u64::MAX));
}
