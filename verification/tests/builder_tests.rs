use autoeq2camilladsp::configcreation::{
    build, build_configuration, BuildError, CorrectionFilterSet, Filter, GainParameters,
    NamedFilter, PipelineStep,
};
use autoeq2camilladsp::crossfeed::{pow_chu_moy_bundle, Crossfeed, PresetBundle};
use autoeq2camilladsp::decimal::Decimal;
use autoeq2camilladsp::configcreation::{BiquadParameters, PeakingWidth};

fn band(freq: &str, gain: &str, q: &str) -> BiquadParameters {
    BiquadParameters::Peaking(PeakingWidth::Q {
        freq: Decimal::parse(freq.as_bytes()).unwrap(),
        q: Decimal::parse(q.as_bytes()).unwrap(),
        gain: Decimal::parse(gain.as_bytes()).unwrap(),
    })
}

fn correction(n: usize) -> CorrectionFilterSet {
    let mut cs = CorrectionFilterSet::new(Decimal::parse(b"-6.9").unwrap());
    for i in 0..n {
        cs.eq_bands.push(band(&format!("{}", 100 + i), "-2.9", "0.70"));
    }
    cs
}

#[test]
fn build_twice_gives_equal_configurations() {
    let c1 = build_configuration(correction(3), &Crossfeed::PowChuMoy).unwrap();
    let c2 = build_configuration(correction(3), &Crossfeed::PowChuMoy).unwrap();
    assert_eq!(c1, c2);
}

#[test]
fn pipeline_names_follow_parse_order_not_key_order() {
    // with 12 bands the two-digit indices would sort before most
    // single-digit ones lexicographically; the pipeline must keep
    // parse order regardless
    let c = build_configuration(correction(12), &Crossfeed::Off).unwrap();
    assert_eq!(c.pipeline.len(), 2);
    let mut expected: Vec<Vec<u8>> = vec![b"01_Preamp_Gain".to_vec()];
    for i in 0..12 {
        expected.push(format!("Correction_Eq_Band_{}", i).into_bytes());
    }
    for (step, channel) in c.pipeline.iter().zip([0usize, 1usize]) {
        match step {
            PipelineStep::Filter { channel: ch, names } => {
                assert_eq!(*ch, channel);
                assert_eq!(names, &expected);
            }
            other => panic!("expected a filter step, got {:?}", other),
        }
    }
}

#[test]
fn filters_block_is_sorted_by_name() {
    let c = build_configuration(correction(12), &Crossfeed::Off).unwrap();
    let names: Vec<Vec<u8>> = c.filters.iter().map(|e| e.name.clone()).collect();
    let mut sorted = names.clone();
    sorted.sort();
    assert_eq!(names, sorted);
    // lexicographic order puts Band_10 and Band_11 before Band_2
    let pos = |n: &[u8]| names.iter().position(|x| x == n).unwrap();
    assert!(pos(b"Correction_Eq_Band_10") < pos(b"Correction_Eq_Band_2"));
    assert_eq!(names[0], b"01_Preamp_Gain".to_vec());
}

#[test]
fn preset_defining_the_preamp_name_collides() {
    let bundle = PresetBundle {
        mixers: vec![],
        filters: vec![NamedFilter {
            name: b"01_Preamp_Gain".to_vec(),
            filter: Filter::Gain {
                parameters: GainParameters::new(Decimal::parse(b"0").unwrap()),
            },
        }],
        pipeline: vec![],
    };
    match build(correction(1), Some(bundle)) {
        Err(BuildError::NameCollision { name }) => {
            assert_eq!(name, b"01_Preamp_Gain".to_vec());
        }
        other => panic!("expected a name collision, got {:?}", other),
    }
}

#[test]
fn preset_with_duplicate_filter_names_collides() {
    let entry = NamedFilter {
        name: b"Twice".to_vec(),
        filter: Filter::Gain {
            parameters: GainParameters::new(Decimal::parse(b"0").unwrap()),
        },
    };
    let bundle = PresetBundle {
        mixers: vec![],
        filters: vec![entry.clone(), entry],
        pipeline: vec![],
    };
    match build(correction(0), Some(bundle)) {
        Err(BuildError::NameCollision { name }) => assert_eq!(name, b"Twice".to_vec()),
        other => panic!("expected a name collision, got {:?}", other),
    }
}

#[test]
fn build_without_preset_has_no_mixers() {
    let c = build_configuration(correction(2), &Crossfeed::Off).unwrap();
    assert!(c.mixers.is_empty());
    assert_eq!(c.filters.len(), 3);
}

#[test]
fn crossfeed_preset_precedes_the_correction_stage() {
    let c = build_configuration(correction(1), &Crossfeed::PowChuMoy).unwrap();
    assert_eq!(c.mixers.len(), 2);
    assert_eq!(c.pipeline.len(), 6);
    match &c.pipeline[0] {
        PipelineStep::Mixer { name } => assert_eq!(name, &b"00_Crossfeed_Split".to_vec()),
        other => panic!("expected the splitter first, got {:?}", other),
    }
    match &c.pipeline[5] {
        PipelineStep::Filter { channel, .. } => assert_eq!(*channel, 1),
        other => panic!("expected the correction chain last, got {:?}", other),
    }
    let names: Vec<&[u8]> = c.filters.iter().map(|e| e.name.as_slice()).collect();
    assert!(names.contains(&b"00_Crossfeed_Lowpass".as_slice()));
    assert!(names.contains(&b"00_Crossfeed_Gain".as_slice()));
    assert!(names.contains(&b"01_Preamp_Gain".as_slice()));
    assert!(names.contains(&b"Correction_Eq_Band_0".as_slice()));
}

#[test]
fn preamp_filter_carries_the_header_gain() {
    let c = build_configuration(correction(1), &Crossfeed::Off).unwrap();
    let preamp = c
        .filters
        .iter()
        .find(|e| e.name == b"01_Preamp_Gain".to_vec())
        .unwrap();
    match &preamp.filter {
        Filter::Gain { parameters } => {
            assert_eq!(parameters.gain.render(), b"-6.9".to_vec());
            assert!(!parameters.inverted);
            assert!(!parameters.mute);
        }
        other => panic!("expected the gain stage, got {:?}", other),
    }
}

#[test]
fn mmp_preset_builds_too() {
    let c = build_configuration(correction(1), &Crossfeed::Mmp).unwrap();
    let names: Vec<&[u8]> = c.filters.iter().map(|e| e.name.as_slice()).collect();
    assert!(names.contains(&b"00_Mmp_Highshelf".as_slice()));
}

#[test]
fn bundle_constructor_matches_its_advertised_names() {
    let b = pow_chu_moy_bundle();
    let mnames: Vec<&[u8]> = b.mixers.iter().map(|e| e.name.as_slice()).collect();
    assert_eq!(
        mnames,
        vec![b"00_Crossfeed_Split".as_slice(), b"00_Crossfeed_Sum".as_slice()]
    );
    assert_eq!(b.pipeline.len(), 4);
}
