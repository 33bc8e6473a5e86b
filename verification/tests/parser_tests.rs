use autoeq2camilladsp::configcreation::{BiquadParameters, PeakingWidth};
use autoeq2camilladsp::decimal::Decimal;
use autoeq2camilladsp::scraping::{
    parse_correction_data, parse_filter_line, parse_filters, parse_preamp_gain, ParseError,
};

#[test]
fn header_with_unit_parses() {
    let d = parse_preamp_gain(b"Preamp: -6.9dB").unwrap();
    assert_eq!(d.render(), b"-6.9".to_vec());
    assert!(d.negative);
    assert_eq!(d.int_digits, b"6".to_vec());
    assert_eq!(d.frac_digits, b"9".to_vec());
}

#[test]
fn header_without_unit_parses() {
    let d = parse_preamp_gain(b"Preamp: -6.9").unwrap();
    assert_eq!(d.render(), b"-6.9".to_vec());
}

#[test]
fn header_round_trip_is_lossless() {
    // the parsed value prints back as the header's own token
    for header in [
        "Preamp: -6.9dB",
        "Preamp: 0.0dB",
        "Preamp: -12dB",
        "Preamp: 3.50",
    ] {
        let d = parse_preamp_gain(header.as_bytes()).unwrap();
        let token = header.split_whitespace().nth(1).unwrap();
        let token = token.strip_suffix("dB").unwrap_or(token);
        assert_eq!(d.render(), token.as_bytes().to_vec());
    }
}

#[test]
fn header_with_one_token_is_malformed() {
    assert_eq!(parse_preamp_gain(b"Preamp:"), Err(ParseError::MalformedHeader));
}

#[test]
fn header_with_nonnumeric_gain_is_malformed() {
    assert_eq!(parse_preamp_gain(b"Preamp: abc"), Err(ParseError::MalformedHeader));
}

#[test]
fn header_with_extra_tokens_is_malformed() {
    assert_eq!(parse_preamp_gain(b"Preamp: -6.9 dB"), Err(ParseError::MalformedHeader));
}

#[test]
fn empty_header_is_malformed() {
    assert_eq!(parse_preamp_gain(b""), Err(ParseError::MalformedHeader));
}

#[test]
fn band_line_parses_to_peaking() {
    let band = parse_filter_line(b"Filter 1: ON PK Fc 105 Hz Gain -2.9 dB Q 0.70").unwrap();
    match band {
        BiquadParameters::Peaking(PeakingWidth::Q { freq, q, gain }) => {
            assert_eq!(freq.render(), b"105".to_vec());
            assert_eq!(gain.render(), b"-2.9".to_vec());
            assert_eq!(q.render(), b"0.70".to_vec());
        }
        other => panic!("expected a peaking band, got {:?}", other),
    }
}

#[test]
fn band_line_parse_is_deterministic() {
    let line: &[u8] = b"Filter 1: ON PK Fc 105 Hz Gain -2.9 dB Q 0.70";
    let first = parse_filter_line(line).unwrap();
    let second = parse_filter_line(line).unwrap();
    assert_eq!(first, second);
}

#[test]
fn shelf_band_line_is_out_of_grammar() {
    // an LSC line must fail loudly instead of being misread as peaking
    assert!(parse_filter_line(b"Filter 2: ON LSC Fc 105 Hz Gain 2.0 dB Q 0.70").is_none());
}

#[test]
fn band_line_with_wrong_literals_is_rejected() {
    assert!(parse_filter_line(b"Filter 1: OFF PK Fc 105 Hz Gain -2.9 dB Q 0.70").is_none());
    assert!(parse_filter_line(b"Filter 1: ON PK Fc 105 Hz Gain -2.9 dB").is_none());
    assert!(parse_filter_line(b"Filter x: ON PK Fc 105 Hz Gain -2.9 dB Q 0.70").is_none());
    assert!(parse_filter_line(b"").is_none());
}

#[test]
fn band_line_with_nonnumeric_field_is_rejected() {
    assert!(parse_filter_line(b"Filter 1: ON PK Fc abc Hz Gain -2.9 dB Q 0.70").is_none());
    assert!(parse_filter_line(b"Filter 1: ON PK Fc 105 Hz Gain x dB Q 0.70").is_none());
    assert!(parse_filter_line(b"Filter 1: ON PK Fc 105 Hz Gain -2.9 dB Q y").is_none());
}

#[test]
fn whole_resource_parses_in_order() {
    let text = b"Preamp: -6.9dB\n\
Filter 1: ON PK Fc 105 Hz Gain -2.9 dB Q 0.70\n\
Filter 2: ON PK Fc 2400 Hz Gain 1.5 dB Q 1.41\n";
    let cs = parse_correction_data(text).unwrap();
    assert_eq!(cs.gain.render(), b"-6.9".to_vec());
    assert_eq!(cs.eq_bands.len(), 2);
    match &cs.eq_bands[0] {
        BiquadParameters::Peaking(PeakingWidth::Q { freq, .. }) => {
            assert_eq!(freq.render(), b"105".to_vec());
        }
        other => panic!("unexpected band {:?}", other),
    }
    match &cs.eq_bands[1] {
        BiquadParameters::Peaking(PeakingWidth::Q { freq, .. }) => {
            assert_eq!(freq.render(), b"2400".to_vec());
        }
        other => panic!("unexpected band {:?}", other),
    }
}

#[test]
fn empty_lines_between_bands_are_skipped() {
    let text = b"Preamp: -6.9dB\n\nFilter 1: ON PK Fc 105 Hz Gain -2.9 dB Q 0.70\n\n";
    let cs = parse_correction_data(text).unwrap();
    assert_eq!(cs.eq_bands.len(), 1);
}

#[test]
fn crlf_line_endings_are_accepted() {
    let text = b"Preamp: -6.9dB\r\nFilter 1: ON PK Fc 105 Hz Gain -2.9 dB Q 0.70\r\n";
    let cs = parse_correction_data(text).unwrap();
    assert_eq!(cs.eq_bands.len(), 1);
}

#[test]
fn bad_band_line_reports_its_line_number() {
    let text = b"Preamp: -6.9dB\n\
Filter 1: ON PK Fc 105 Hz Gain -2.9 dB Q 0.70\n\
Filter 2: ON LSC Fc 105 Hz Gain 2.0 dB Q 0.70\n";
    assert_eq!(
        parse_correction_data(text),
        Err(ParseError::MalformedBandLine { line: 3 })
    );
}

#[test]
fn bad_header_fails_whole_parse() {
    let text = b"nonsense\nFilter 1: ON PK Fc 105 Hz Gain -2.9 dB Q 0.70\n";
    assert_eq!(parse_correction_data(text), Err(ParseError::MalformedHeader));
}

#[test]
fn empty_resource_is_malformed() {
    assert_eq!(parse_correction_data(b""), Err(ParseError::MalformedHeader));
}

#[test]
fn parse_filters_appends_bands() {
    let d = parse_preamp_gain(b"Preamp: -6.9dB").unwrap();
    let mut cs = autoeq2camilladsp::configcreation::CorrectionFilterSet::new(d);
    let lines = vec![b"Filter 1: ON PK Fc 105 Hz Gain -2.9 dB Q 0.70".to_vec()];
    parse_filters(&lines, &mut cs).unwrap();
    assert_eq!(cs.eq_bands.len(), 1);
}

#[test]
fn decimal_keeps_trailing_zero() {
    let d = Decimal::parse(b"0.70").unwrap();
    assert_eq!(d.render(), b"0.70".to_vec());
}

#[test]
fn decimal_round_trip_examples() {
    for token in ["105", "-2.9", "0.70", "0", "-0.0", "12345.6789"] {
        let d = Decimal::parse(token.as_bytes()).unwrap();
        assert_eq!(d.render(), token.as_bytes().to_vec());
    }
}

#[test]
fn decimal_rejects_out_of_grammar_tokens() {
    for token in ["", "-", "5.", ".5", "1e3", "+5", "1.2.3", "1 2", "dB", "--1"] {
        assert!(
            Decimal::parse(token.as_bytes()).is_none(),
            "token {:?} should be rejected",
            token
        );
    }
}
