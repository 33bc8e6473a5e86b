//! The crossfeed preset catalog.
//!
//! A preset bundle is an immutable mixer/filter/pipeline fragment that
//! the builder merges ahead of the correction stage: a splitter mixer
//! fans the two input channels out to four, the crossfeed path is
//! filtered and attenuated on the two extra channels, and a summing
//! mixer folds them back.  Every preset name starts with `00_` so that
//! it can never collide with a correction-stage name.
use vstd::prelude::*;

use crate::configcreation::{
    band_name, correction_names, filter_names, filter_wf, has_dup, lemma_correction_names,
    lemma_correction_names_distinct, mixer_names, mixer_wf, contains_name, dup_at,
    BiquadParameters, Filter, GainParameters, Mixer, MixerChannels, MixerMapping, MixerSource,
    NamedFilter, NamedMixer, PipelineStep, preamp_name,
};
use crate::decimal::Decimal;
use crate::text::plain_name;
use vstd::string::{StrSliceExecFns, StringSliceAdditionalSpecFns};

verus! {

/// The closed set of crossfeed choices.
#[derive(Debug, Clone, Copy, PartialEq, Eq, Structural)]
pub enum Crossfeed {
    /// No crossfeed: the correction stage alone.
    Off,
    /// The Pow Chu Moy acoustic-simulator topology.
    PowChuMoy,
    /// The Mmp topology.
    Mmp,
}

/// A named, pre-baked fragment merged wholesale into a configuration.
#[derive(Debug, Clone, PartialEq, Eq)]
pub struct PresetBundle {
    pub mixers: Vec<NamedMixer>,
    pub filters: Vec<NamedFilter>,
    pub pipeline: Vec<PipelineStep>,
}

impl PresetBundle {
    /// Plain names and well-formed values throughout the bundle.
    pub open spec fn wf(&self) -> bool {
        &&& forall|i: int|
            0 <= i < self.filters@.len() ==> plain_name((#[trigger] self.filters@[i]).name@)
        &&& forall|i: int|
            0 <= i < self.mixers@.len() ==> plain_name((#[trigger] self.mixers@[i]).name@)
        &&& forall|i: int|
            0 <= i < self.filters@.len() ==> filter_wf((#[trigger] self.filters@[i]).filter)
        &&& forall|i: int|
            0 <= i < self.mixers@.len() ==> mixer_wf((#[trigger] self.mixers@[i]).mixer)
    }

    /// The bundle's pipeline refers only to the bundle's own names.
    pub open spec fn refs_valid(&self) -> bool {
        forall|i: int|
            0 <= i < self.pipeline@.len() ==> match #[trigger] self.pipeline@[i] {
                PipelineStep::Mixer { name } => contains_name(mixer_names(self.mixers@), name@),
                PipelineStep::Filter { channel, names } => forall|j: int|
                    0 <= j < names@.len() ==> contains_name(
                        filter_names(self.filters@),
                        (#[trigger] names@[j])@,
                    ),
            }
    }
}

/// A source feeding `channel` at unit gain, neither inverted nor muted.
fn unit_source(channel: usize) -> (r: MixerSource)
    ensures
        r.channel == channel,
        r.gain.wf(),
        !r.inverted,
        !r.mute,
{
    MixerSource { channel, gain: Decimal::from_int(0, false), inverted: false, mute: false }
}

/// A splitter: two input channels fanned out to four, inputs 0 and 1
/// copied to outputs 0..3.
fn split_mixer() -> (r: Mixer)
    ensures
        mixer_wf(r),
        r.channels.input == 2,
        r.channels.output == 4,
{
    let mapping = vec![
        MixerMapping { dest: 0, sources: vec![unit_source(0)], mute: false },
        MixerMapping { dest: 1, sources: vec![unit_source(1)], mute: false },
        MixerMapping { dest: 2, sources: vec![unit_source(0)], mute: false },
        MixerMapping { dest: 3, sources: vec![unit_source(1)], mute: false },
    ];
    Mixer { channels: MixerChannels { input: 2, output: 4 }, mapping }
}

/// A summer: four channels folded back to two, each output mixing its
/// direct channel with the opposite side's crossfeed channel.
fn sum_mixer() -> (r: Mixer)
    ensures
        mixer_wf(r),
        r.channels.input == 4,
        r.channels.output == 2,
{
    let mapping = vec![
        MixerMapping { dest: 0, sources: vec![unit_source(0), unit_source(3)], mute: false },
        MixerMapping { dest: 1, sources: vec![unit_source(1), unit_source(2)], mute: false },
    ];
    Mixer { channels: MixerChannels { input: 4, output: 2 }, mapping }
}

/// The names held by the Pow Chu Moy bundle.
pub open spec fn pow_chu_moy_mixer_names() -> Seq<Seq<u8>> {
    seq!["00_Crossfeed_Split".spec_bytes(), "00_Crossfeed_Sum".spec_bytes()]
}

pub open spec fn pow_chu_moy_filter_names() -> Seq<Seq<u8>> {
    seq!["00_Crossfeed_Lowpass".spec_bytes(), "00_Crossfeed_Gain".spec_bytes()]
}

/// The names held by the Mmp bundle.
pub open spec fn mmp_mixer_names() -> Seq<Seq<u8>> {
    seq!["00_Mmp_Split".spec_bytes(), "00_Mmp_Sum".spec_bytes()]
}

pub open spec fn mmp_filter_names() -> Seq<Seq<u8>> {
    seq!["00_Mmp_Highshelf".spec_bytes(), "00_Mmp_Gain".spec_bytes()]
}

/// The Pow Chu Moy bundle: split, low-pass and attenuate the crossfeed
/// path at 700 Hz and -9.5 dB, sum.
pub fn pow_chu_moy_bundle() -> (r: PresetBundle)
    ensures
        r.wf(),
        r.refs_valid(),
        mixer_names(r.mixers@) == pow_chu_moy_mixer_names(),
        filter_names(r.filters@) == pow_chu_moy_filter_names(),
        r.pipeline@.len() == 4,
{
    let split_name = "00_Crossfeed_Split".as_bytes_vec();
    let sum_name = "00_Crossfeed_Sum".as_bytes_vec();
    let lp_name = "00_Crossfeed_Lowpass".as_bytes_vec();
    let gain_name = "00_Crossfeed_Gain".as_bytes_vec();
    proof {
        reveal_strlit("00_Crossfeed_Split");
        reveal_strlit("00_Crossfeed_Sum");
        reveal_strlit("00_Crossfeed_Lowpass");
        reveal_strlit("00_Crossfeed_Gain");
        assert(vstd::string::is_ascii("00_Crossfeed_Split"));
        assert(vstd::string::is_ascii("00_Crossfeed_Sum"));
        assert(vstd::string::is_ascii("00_Crossfeed_Lowpass"));
        assert(vstd::string::is_ascii("00_Crossfeed_Gain"));
        vstd::string::is_ascii_spec_bytes("00_Crossfeed_Split");
        vstd::string::is_ascii_spec_bytes("00_Crossfeed_Sum");
        vstd::string::is_ascii_spec_bytes("00_Crossfeed_Lowpass");
        vstd::string::is_ascii_spec_bytes("00_Crossfeed_Gain");
        assert(plain_name("00_Crossfeed_Split".spec_bytes()));
        assert(plain_name("00_Crossfeed_Sum".spec_bytes()));
        assert(plain_name("00_Crossfeed_Lowpass".spec_bytes()));
        assert(plain_name("00_Crossfeed_Gain".spec_bytes()));
    }
    let mixers = vec![
        NamedMixer { name: split_name, mixer: split_mixer() },
        NamedMixer { name: sum_name, mixer: sum_mixer() },
    ];
    let filters = vec![
        NamedFilter {
            name: lp_name,
            filter: Filter::Biquad {
                parameters: BiquadParameters::LowpassFO { freq: Decimal::from_int(700, false) },
            },
        },
        NamedFilter {
            name: gain_name,
            filter: Filter::Gain {
                parameters: GainParameters::new(Decimal::from_parts(9, 5, true)),
            },
        },
    ];
    let pipeline = vec![
        PipelineStep::Mixer { name: "00_Crossfeed_Split".as_bytes_vec() },
        PipelineStep::Filter {
            channel: 2,
            names: vec![
                "00_Crossfeed_Lowpass".as_bytes_vec(),
                "00_Crossfeed_Gain".as_bytes_vec(),
            ],
        },
        PipelineStep::Filter {
            channel: 3,
            names: vec![
                "00_Crossfeed_Lowpass".as_bytes_vec(),
                "00_Crossfeed_Gain".as_bytes_vec(),
            ],
        },
        PipelineStep::Mixer { name: "00_Crossfeed_Sum".as_bytes_vec() },
    ];
    let r = PresetBundle { mixers, filters, pipeline };
    proof {
        assert(mixer_names(r.mixers@) =~= pow_chu_moy_mixer_names());
        assert(filter_names(r.filters@) =~= pow_chu_moy_filter_names());
        assert(mixer_names(r.mixers@)[0] == "00_Crossfeed_Split".spec_bytes());
        assert(mixer_names(r.mixers@)[1] == "00_Crossfeed_Sum".spec_bytes());
        assert(filter_names(r.filters@)[0] == "00_Crossfeed_Lowpass".spec_bytes());
        assert(filter_names(r.filters@)[1] == "00_Crossfeed_Gain".spec_bytes());
        assert(r.refs_valid()) by {
            assert forall|i: int| 0 <= i < r.pipeline@.len() implies match #[trigger] r.pipeline@[i] {
                PipelineStep::Mixer { name } => contains_name(mixer_names(r.mixers@), name@),
                PipelineStep::Filter { channel, names } => forall|j: int|
                    0 <= j < names@.len() ==> contains_name(
                        filter_names(r.filters@),
                        (#[trigger] names@[j])@,
                    ),
            } by {
                match r.pipeline@[i] {
                    PipelineStep::Mixer { name } => {
                        if i == 0 {
                            assert(mixer_names(r.mixers@)[0] == name@);
                        } else {
                            assert(mixer_names(r.mixers@)[1] == name@);
                        }
                    },
                    PipelineStep::Filter { channel, names } => {
                        assert forall|j: int| 0 <= j < names@.len() implies contains_name(
                            filter_names(r.filters@),
                            (#[trigger] names@[j])@,
                        ) by {
                            if j == 0 {
                                assert(filter_names(r.filters@)[0] == names@[j]@);
                            } else {
                                assert(filter_names(r.filters@)[1] == names@[j]@);
                            }
                        }
                    },
                }
            }
        }
    }
    r
}

/// The Mmp bundle: split, high-shelf the crossfeed path down by 2.5 dB
/// above 1000 Hz with an overall -6 dB trim, sum.
pub fn mmp_bundle() -> (r: PresetBundle)
    ensures
        r.wf(),
        r.refs_valid(),
        mixer_names(r.mixers@) == mmp_mixer_names(),
        filter_names(r.filters@) == mmp_filter_names(),
        r.pipeline@.len() == 4,
{
    let split_name = "00_Mmp_Split".as_bytes_vec();
    let sum_name = "00_Mmp_Sum".as_bytes_vec();
    let hs_name = "00_Mmp_Highshelf".as_bytes_vec();
    let gain_name = "00_Mmp_Gain".as_bytes_vec();
    proof {
        reveal_strlit("00_Mmp_Split");
        reveal_strlit("00_Mmp_Sum");
        reveal_strlit("00_Mmp_Highshelf");
        reveal_strlit("00_Mmp_Gain");
        assert(vstd::string::is_ascii("00_Mmp_Split"));
        assert(vstd::string::is_ascii("00_Mmp_Sum"));
        assert(vstd::string::is_ascii("00_Mmp_Highshelf"));
        assert(vstd::string::is_ascii("00_Mmp_Gain"));
        vstd::string::is_ascii_spec_bytes("00_Mmp_Split");
        vstd::string::is_ascii_spec_bytes("00_Mmp_Sum");
        vstd::string::is_ascii_spec_bytes("00_Mmp_Highshelf");
        vstd::string::is_ascii_spec_bytes("00_Mmp_Gain");
        assert(plain_name("00_Mmp_Split".spec_bytes()));
        assert(plain_name("00_Mmp_Sum".spec_bytes()));
        assert(plain_name("00_Mmp_Highshelf".spec_bytes()));
        assert(plain_name("00_Mmp_Gain".spec_bytes()));
    }
    let mixers = vec![
        NamedMixer { name: split_name, mixer: split_mixer() },
        NamedMixer { name: sum_name, mixer: sum_mixer() },
    ];
    let filters = vec![
        NamedFilter {
            name: hs_name,
            filter: Filter::Biquad {
                parameters: BiquadParameters::HighshelfFO {
                    freq: Decimal::from_int(1000, false),
                    gain: Decimal::from_parts(2, 5, true),
                },
            },
        },
        NamedFilter {
            name: gain_name,
            filter: Filter::Gain {
                parameters: GainParameters::new(Decimal::from_int(6, true)),
            },
        },
    ];
    let pipeline = vec![
        PipelineStep::Mixer { name: "00_Mmp_Split".as_bytes_vec() },
        PipelineStep::Filter {
            channel: 2,
            names: vec!["00_Mmp_Highshelf".as_bytes_vec(), "00_Mmp_Gain".as_bytes_vec()],
        },
        PipelineStep::Filter {
            channel: 3,
            names: vec!["00_Mmp_Highshelf".as_bytes_vec(), "00_Mmp_Gain".as_bytes_vec()],
        },
        PipelineStep::Mixer { name: "00_Mmp_Sum".as_bytes_vec() },
    ];
    let r = PresetBundle { mixers, filters, pipeline };
    proof {
        assert(mixer_names(r.mixers@) =~= mmp_mixer_names());
        assert(filter_names(r.filters@) =~= mmp_filter_names());
        assert(mixer_names(r.mixers@)[0] == "00_Mmp_Split".spec_bytes());
        assert(mixer_names(r.mixers@)[1] == "00_Mmp_Sum".spec_bytes());
        assert(filter_names(r.filters@)[0] == "00_Mmp_Highshelf".spec_bytes());
        assert(filter_names(r.filters@)[1] == "00_Mmp_Gain".spec_bytes());
        assert(r.refs_valid()) by {
            assert forall|i: int| 0 <= i < r.pipeline@.len() implies match #[trigger] r.pipeline@[i] {
                PipelineStep::Mixer { name } => contains_name(mixer_names(r.mixers@), name@),
                PipelineStep::Filter { channel, names } => forall|j: int|
                    0 <= j < names@.len() ==> contains_name(
                        filter_names(r.filters@),
                        (#[trigger] names@[j])@,
                    ),
            } by {
                match r.pipeline@[i] {
                    PipelineStep::Mixer { name } => {
                        if i == 0 {
                            assert(mixer_names(r.mixers@)[0] == name@);
                        } else {
                            assert(mixer_names(r.mixers@)[1] == name@);
                        }
                    },
                    PipelineStep::Filter { channel, names } => {
                        assert forall|j: int| 0 <= j < names@.len() implies contains_name(
                            filter_names(r.filters@),
                            (#[trigger] names@[j])@,
                        ) by {
                            if j == 0 {
                                assert(filter_names(r.filters@)[0] == names@[j]@);
                            } else {
                                assert(filter_names(r.filters@)[1] == names@[j]@);
                            }
                        }
                    },
                }
            }
        }
    }
    r
}

/// The bundle a crossfeed choice selects, if any.
pub fn crossfeed_bundle(crossfeed: &Crossfeed) -> (r: Option<PresetBundle>)
    ensures
        match crossfeed {
            Crossfeed::Off => r is None,
            Crossfeed::PowChuMoy => r matches Some(b) && b.wf() && b.refs_valid() && mixer_names(
                b.mixers@,
            ) == pow_chu_moy_mixer_names() && filter_names(b.filters@)
                == pow_chu_moy_filter_names() && b.pipeline@.len() == 4,
            Crossfeed::Mmp => r matches Some(b) && b.wf() && b.refs_valid() && mixer_names(
                b.mixers@,
            ) == mmp_mixer_names() && filter_names(b.filters@) == mmp_filter_names()
                && b.pipeline@.len() == 4,
        },
{
    match crossfeed {
        Crossfeed::Off => None,
        Crossfeed::PowChuMoy => Some(pow_chu_moy_bundle()),
        Crossfeed::Mmp => Some(mmp_bundle()),
    }
}


/// The mixer names a crossfeed choice contributes.
pub open spec fn crossfeed_mixer_names(cf: Crossfeed) -> Seq<Seq<u8>> {
    match cf {
        Crossfeed::Off => Seq::empty(),
        Crossfeed::PowChuMoy => pow_chu_moy_mixer_names(),
        Crossfeed::Mmp => mmp_mixer_names(),
    }
}

/// The filter names a crossfeed choice contributes.
pub open spec fn crossfeed_filter_names(cf: Crossfeed) -> Seq<Seq<u8>> {
    match cf {
        Crossfeed::Off => Seq::empty(),
        Crossfeed::PowChuMoy => pow_chu_moy_filter_names(),
        Crossfeed::Mmp => mmp_filter_names(),
    }
}

/// How many pipeline steps a crossfeed choice contributes.
pub open spec fn crossfeed_step_count(cf: Crossfeed) -> int {
    match cf {
        Crossfeed::Off => 0,
        Crossfeed::PowChuMoy => 4,
        Crossfeed::Mmp => 4,
    }
}

/// Every catalog preset keeps clear of the correction stage: its own
/// names are pairwise distinct, and none equals the preamp name or any
/// generated band name, so building with a catalog preset can never hit
/// a name collision.
pub proof fn lemma_catalog_names_fresh(cf: Crossfeed, n: nat)
    ensures
        !has_dup(crossfeed_mixer_names(cf)),
        !has_dup(crossfeed_filter_names(cf) + correction_names(n)),
{
    reveal_strlit("00_Crossfeed_Split");
    reveal_strlit("00_Crossfeed_Sum");
    reveal_strlit("00_Crossfeed_Lowpass");
    reveal_strlit("00_Crossfeed_Gain");
    reveal_strlit("00_Mmp_Split");
    reveal_strlit("00_Mmp_Sum");
    reveal_strlit("00_Mmp_Highshelf");
    reveal_strlit("00_Mmp_Gain");
    assert(vstd::string::is_ascii("00_Crossfeed_Split"));
    assert(vstd::string::is_ascii("00_Crossfeed_Sum"));
    assert(vstd::string::is_ascii("00_Crossfeed_Lowpass"));
    assert(vstd::string::is_ascii("00_Crossfeed_Gain"));
    assert(vstd::string::is_ascii("00_Mmp_Split"));
    assert(vstd::string::is_ascii("00_Mmp_Sum"));
    assert(vstd::string::is_ascii("00_Mmp_Highshelf"));
    assert(vstd::string::is_ascii("00_Mmp_Gain"));
    vstd::string::is_ascii_spec_bytes("00_Crossfeed_Split");
    vstd::string::is_ascii_spec_bytes("00_Crossfeed_Sum");
    vstd::string::is_ascii_spec_bytes("00_Crossfeed_Lowpass");
    vstd::string::is_ascii_spec_bytes("00_Crossfeed_Gain");
    vstd::string::is_ascii_spec_bytes("00_Mmp_Split");
    vstd::string::is_ascii_spec_bytes("00_Mmp_Sum");
    vstd::string::is_ascii_spec_bytes("00_Mmp_Highshelf");
    vstd::string::is_ascii_spec_bytes("00_Mmp_Gain");
    lemma_correction_names();
    lemma_correction_names_distinct(n);
    let cn = correction_names(n);
    let fn_ = crossfeed_filter_names(cf);
    let all = fn_ + cn;
    // every preset filter name starts `00`, while the preamp starts `01`
    // and every band name starts with an uppercase letter
    assert forall|t: int| 0 <= t < fn_.len() implies (#[trigger] fn_[t]).len() >= 2 && fn_[t][0]
        == 48 && fn_[t][1] == 48 by {
        match cf {
            Crossfeed::Off => {},
            Crossfeed::PowChuMoy => {},
            Crossfeed::Mmp => {},
        }
    }
    assert forall|t: int, u: int| 0 <= t < u < fn_.len() implies fn_[t] != fn_[u] by {
        match cf {
            Crossfeed::Off => {},
            Crossfeed::PowChuMoy => {
                assert(fn_[0].len() != fn_[1].len());
            },
            Crossfeed::Mmp => {
                assert(fn_[0].len() != fn_[1].len());
            },
        }
    }
    assert(!has_dup(all)) by {
        if has_dup(all) {
            let j = choose|j: int| 0 <= j < all.len() && dup_at(all, j);
            let i = choose|i: int| 0 <= i < j && all[i] == all[j];
            let bl = fn_.len() as int;
            if j < bl {
                assert(all[i] == fn_[i]);
                assert(all[j] == fn_[j]);
            } else {
                assert(all[j] == cn[j - bl]);
                if i < bl {
                    assert(all[i] == fn_[i]);
                    if j - bl == 0 {
                        assert(cn[0] == preamp_name());
                        assert(fn_[i][1] == 48 && preamp_name()[1] == 49);
                    } else {
                        assert(cn[j - bl] == band_name((j - bl - 1) as nat));
                        assert(fn_[i][0] == 48 && band_name((j - bl - 1) as nat)[0] == 67);
                    }
                } else {
                    assert(all[i] == cn[i - bl]);
                }
            }
        }
    }
    assert(!has_dup(crossfeed_mixer_names(cf))) by {
        let mn = crossfeed_mixer_names(cf);
        if has_dup(mn) {
            let j = choose|j: int| 0 <= j < mn.len() && dup_at(mn, j);
            let i = choose|i: int| 0 <= i < j && mn[i] == mn[j];
            match cf {
                Crossfeed::Off => {},
                Crossfeed::PowChuMoy => {
                    assert(mn[0].len() != mn[1].len());
                },
                Crossfeed::Mmp => {
                    assert(mn[0].len() != mn[1].len());
                },
            }
        }
    }
}


/// The label a crossfeed choice carries in the machine-readable listing.
pub open spec fn crossfeed_label(cf: Crossfeed) -> Seq<u8> {
    match cf {
        Crossfeed::Off => "None".spec_bytes(),
        Crossfeed::PowChuMoy => "PowChuMoy".spec_bytes(),
        Crossfeed::Mmp => "Mmp".spec_bytes(),
    }
}

/// Prints a crossfeed label.
pub fn crossfeed_label_vec(cf: &Crossfeed) -> (r: Vec<u8>)
    ensures
        r@ == crossfeed_label(*cf),
{
    match cf {
        Crossfeed::Off => "None".as_bytes_vec(),
        Crossfeed::PowChuMoy => "PowChuMoy".as_bytes_vec(),
        Crossfeed::Mmp => "Mmp".as_bytes_vec(),
    }
}

} // verus!
