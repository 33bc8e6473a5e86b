use autoeq2camilladsp::configcreation::{
    build_configuration, CorrectionFilterSet, PipelineStep,
};
use autoeq2camilladsp::crossfeed::Crossfeed;
use autoeq2camilladsp::decimal::Decimal;
use autoeq2camilladsp::emitter::{create_filename, emit_configuration, emit_document};
use autoeq2camilladsp::configcreation::{BiquadParameters, PeakingWidth};

fn one_band_correction() -> CorrectionFilterSet {
    let mut cs = CorrectionFilterSet::new(Decimal::parse(b"-6.9").unwrap());
    cs.eq_bands.push(BiquadParameters::Peaking(PeakingWidth::Q {
        freq: Decimal::parse(b"105").unwrap(),
        q: Decimal::parse(b"0.70").unwrap(),
        gain: Decimal::parse(b"-2.9").unwrap(),
    }));
    cs
}

#[test]
fn filename_for_plain_eq() {
    assert_eq!(
        create_filename(b"Sony WH-1000XM4", &Crossfeed::Off),
        b"Sony_WH-1000XM4-EQ.yml".to_vec()
    );
}

#[test]
fn filename_for_pow_chu_moy() {
    assert_eq!(
        create_filename(b"Sony WH-1000XM4", &Crossfeed::PowChuMoy),
        b"Sony_WH-1000XM4-EQ-ChuMoy.yml".to_vec()
    );
}

#[test]
fn filename_for_mmp() {
    assert_eq!(
        create_filename(b"AKG K371", &Crossfeed::Mmp),
        b"AKG_K371-EQ-MMP.yml".to_vec()
    );
}

#[test]
fn small_configuration_serializes_exactly() {
    let c = build_configuration(one_band_correction(), &Crossfeed::Off).unwrap();
    let body = String::from_utf8(emit_configuration(&c)).unwrap();
    let expected = "filters:\n\
\x20\x2001_Preamp_Gain:\n\
\x20\x20\x20\x20type: Gain\n\
\x20\x20\x20\x20parameters:\n\
\x20\x20\x20\x20\x20\x20gain: -6.9\n\
\x20\x20\x20\x20\x20\x20inverted: false\n\
\x20\x20\x20\x20\x20\x20mute: false\n\
\x20\x20Correction_Eq_Band_0:\n\
\x20\x20\x20\x20type: Biquad\n\
\x20\x20\x20\x20parameters:\n\
\x20\x20\x20\x20\x20\x20type: Peaking\n\
\x20\x20\x20\x20\x20\x20freq: 105\n\
\x20\x20\x20\x20\x20\x20q: 0.70\n\
\x20\x20\x20\x20\x20\x20gain: -2.9\n\
pipeline:\n\
- type: Filter\n\
\x20\x20channel: 0\n\
\x20\x20names:\n\
\x20\x20- 01_Preamp_Gain\n\
\x20\x20- Correction_Eq_Band_0\n\
- type: Filter\n\
\x20\x20channel: 1\n\
\x20\x20names:\n\
\x20\x20- 01_Preamp_Gain\n\
\x20\x20- Correction_Eq_Band_0\n";
    assert_eq!(body, expected);
}

#[test]
fn document_has_exactly_one_marker_line() {
    let c = build_configuration(one_band_correction(), &Crossfeed::PowChuMoy).unwrap();
    let header = b"---\ndescription: test header\n";
    let devices = b"devices:\n  samplerate: 44100\n---\n";
    let doc = String::from_utf8(emit_document(&c, header, devices)).unwrap();
    let markers = doc.lines().filter(|l| *l == "---").count();
    assert_eq!(markers, 1);
    assert!(doc.starts_with("---\n"));
    assert!(doc.contains("description: test header\n"));
    assert!(doc.contains("samplerate: 44100\n"));
}

#[test]
fn emitted_document_parses_as_one_yaml_document() {
    let c = build_configuration(one_band_correction(), &Crossfeed::PowChuMoy).unwrap();
    let header = b"description: test\n";
    let devices = b"devices:\n  samplerate: 44100\n";
    let doc = String::from_utf8(emit_document(&c, header, devices)).unwrap();
    // from_str accepts exactly one document, so success is the witness
    let value: serde_yaml::Value = serde_yaml::from_str(&doc).unwrap();
    assert!(value.get("filters").is_some());
    assert!(value.get("mixers").is_some());
    assert!(value.get("pipeline").is_some());
}

#[test]
fn parsed_back_filters_match_the_configuration() {
    let c = build_configuration(one_band_correction(), &Crossfeed::Off).unwrap();
    let doc = String::from_utf8(emit_document(&c, b"", b"")).unwrap();
    let value: serde_yaml::Value = serde_yaml::from_str(&doc).unwrap();
    let filters = value.get("filters").unwrap().as_mapping().unwrap();
    assert_eq!(filters.len(), c.filters.len());
    for entry in &c.filters {
        let key = String::from_utf8(entry.name.clone()).unwrap();
        assert!(filters.contains_key(serde_yaml::Value::from(key.as_str())));
    }
    let preamp = &value["filters"]["01_Preamp_Gain"];
    assert_eq!(preamp["type"].as_str(), Some("Gain"));
    assert_eq!(preamp["parameters"]["gain"].as_f64(), Some(-6.9));
    assert_eq!(preamp["parameters"]["inverted"].as_bool(), Some(false));
    let b0 = &value["filters"]["Correction_Eq_Band_0"];
    assert_eq!(b0["type"].as_str(), Some("Biquad"));
    assert_eq!(b0["parameters"]["type"].as_str(), Some("Peaking"));
    assert_eq!(b0["parameters"]["freq"].as_f64(), Some(105.0));
    assert_eq!(b0["parameters"]["q"].as_f64(), Some(0.7));
    assert_eq!(b0["parameters"]["gain"].as_f64(), Some(-2.9));
}

#[test]
fn parsed_back_pipeline_matches_the_configuration() {
    let c = build_configuration(one_band_correction(), &Crossfeed::PowChuMoy).unwrap();
    let doc = String::from_utf8(emit_document(&c, b"", b"")).unwrap();
    let value: serde_yaml::Value = serde_yaml::from_str(&doc).unwrap();
    let pipeline = value.get("pipeline").unwrap().as_sequence().unwrap();
    assert_eq!(pipeline.len(), c.pipeline.len());
    for (got, want) in pipeline.iter().zip(c.pipeline.iter()) {
        match want {
            PipelineStep::Mixer { name } => {
                assert_eq!(got["type"].as_str(), Some("Mixer"));
                assert_eq!(
                    got["name"].as_str().map(|s| s.as_bytes().to_vec()),
                    Some(name.clone())
                );
            }
            PipelineStep::Filter { channel, names } => {
                assert_eq!(got["type"].as_str(), Some("Filter"));
                assert_eq!(got["channel"].as_u64(), Some(*channel as u64));
                let got_names: Vec<Vec<u8>> = got["names"]
                    .as_sequence()
                    .unwrap()
                    .iter()
                    .map(|v| v.as_str().unwrap().as_bytes().to_vec())
                    .collect();
                assert_eq!(&got_names, names);
            }
        }
    }
}

#[test]
fn parsed_back_mixers_match_the_configuration() {
    let c = build_configuration(one_band_correction(), &Crossfeed::PowChuMoy).unwrap();
    let doc = String::from_utf8(emit_document(&c, b"", b"")).unwrap();
    let value: serde_yaml::Value = serde_yaml::from_str(&doc).unwrap();
    let split = &value["mixers"]["00_Crossfeed_Split"];
    assert_eq!(split["channels"]["in"].as_u64(), Some(2));
    assert_eq!(split["channels"]["out"].as_u64(), Some(4));
    assert_eq!(split["mapping"].as_sequence().unwrap().len(), 4);
    let sum = &value["mixers"]["00_Crossfeed_Sum"];
    assert_eq!(sum["channels"]["in"].as_u64(), Some(4));
    assert_eq!(sum["channels"]["out"].as_u64(), Some(2));
}

#[test]
fn emission_is_deterministic() {
    let c1 = build_configuration(one_band_correction(), &Crossfeed::Mmp).unwrap();
    let c2 = build_configuration(one_band_correction(), &Crossfeed::Mmp).unwrap();
    assert_eq!(emit_document(&c1, b"h\n", b"d\n"), emit_document(&c2, b"h\n", b"d\n"));
}
