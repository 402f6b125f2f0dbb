use nmea_capture::cli::{Cli, Mode, OutputStyle};
use nmea_capture::dds_types::{RawSentence, Source};

fn settings(verbose: u8, quiet: bool) -> Cli {
    Cli {
        bind: "0.0.0.0:1100".to_string(),
        mode: Mode::Unicast,
        timestamp: false,
        verbose,
        quiet,
        dds: false,
        dds_domain: 0,
        dds_topic_raw: "NMEA/Raw".to_string(),
        json: false,
        json_pretty: false,
    }
}

#[test]
fn log_level_follows_verbosity() {
    assert_eq!(settings(0, false).log_level(), "info");
    assert_eq!(settings(1, false).log_level(), "debug");
    assert_eq!(settings(2, false).log_level(), "trace");
    assert_eq!(settings(200, false).log_level(), "trace");
}

#[test]
fn quiet_overrides_verbosity() {
    for v in [0u8, 1, 2, 255] {
        assert_eq!(settings(v, true).log_level(), "warn");
    }
}

#[test]
fn captured_line_takes_the_next_id() {
    let mut seq = 0u64;
    let a = RawSentence::from_line(&mut seq, "$GPRMC,1", 5, Source::udp("10.0.0.1".to_string(), 7));
    let b = RawSentence::from_line(&mut seq, "junk", 6, Source::udp("10.0.0.1".to_string(), 7));
    let c = RawSentence::from_line(&mut seq, "!\u{e9}GVDM", 6, Source::udp("h".to_string(), 1));
    assert_eq!((c.id, c.talker.as_str(), c.sentence.as_str()), (3, "\u{e9}G", "VDM"));
    assert_eq!((a.id, b.id, seq), (1, 2, 3));
    assert_eq!((a.talker.as_str(), a.sentence.as_str()), ("GP", "RMC"));
    assert_eq!((b.talker.as_str(), b.sentence.as_str()), ("??", "UNK"));
    assert!(!a.checksum_ok);
    assert_eq!(a.ts_unix_ms, 5);
    assert_eq!(a.raw, "$GPRMC,1");
    assert_eq!((a.src.host.as_str(), a.src.port, a.src.name.as_str()), ("10.0.0.1", 7, "UDP"));
}

#[test]
fn output_style_follows_the_flags() {
    let mut c = settings(0, false);
    assert!(matches!(c.output_style(), OutputStyle::Plain));
    c.timestamp = true;
    assert!(matches!(c.output_style(), OutputStyle::Timestamped));
    c.json = true;
    assert!(matches!(c.output_style(), OutputStyle::Json { pretty: false }));
    c.json_pretty = true;
    assert!(matches!(c.output_style(), OutputStyle::Json { pretty: true }));
}
