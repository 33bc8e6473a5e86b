//! The configuration data model.
//!
//! A `Configuration` holds named mixers, named filters and an ordered
//! pipeline.  The two name maps are kept as vectors of entries sorted in
//! strictly ascending lexicographic name order, so every well-formed
//! configuration has unique keys and a canonical entry order; only the
//! `pipeline` sequence encodes execution order.
use vstd::prelude::*;

use crate::crossfeed::Crossfeed;
use crate::decimal::Decimal;
use crate::text::{lex_lt, plain_name};
use vstd::string::{StrSliceExecFns, StringSliceAdditionalSpecFns};

verus! {

/// Channel counts of a mixer (printed as the `in` and `out` keys).
#[derive(Debug, Clone, PartialEq, Eq)]
pub struct MixerChannels {
    pub input: usize,
    pub output: usize,
}

/// One source feeding a mixer output channel.
#[derive(Debug, Clone, PartialEq, Eq)]
pub struct MixerSource {
    pub channel: usize,
    pub gain: Decimal,
    pub inverted: bool,
    pub mute: bool,
}

/// One mixer output channel and the sources mixed into it.
#[derive(Debug, Clone, PartialEq, Eq)]
pub struct MixerMapping {
    pub dest: usize,
    pub sources: Vec<MixerSource>,
    pub mute: bool,
}

/// A mixing stage: channel counts plus the full routing table.
#[derive(Debug, Clone, PartialEq, Eq)]
pub struct Mixer {
    pub channels: MixerChannels,
    pub mapping: Vec<MixerMapping>,
}

/// Width parameterisation of a peaking band.
#[derive(Debug, Clone, PartialEq, Eq)]
pub enum PeakingWidth {
    Q { freq: Decimal, q: Decimal, gain: Decimal },
    Bandwidth { freq: Decimal, bandwidth: Decimal, gain: Decimal },
}

/// One biquad band shape with its parameters.
#[derive(Debug, Clone, PartialEq, Eq)]
pub enum BiquadParameters {
    Highpass { freq: Decimal, q: Decimal },
    Lowpass { freq: Decimal, q: Decimal },
    Peaking(PeakingWidth),
    HighshelfFO { freq: Decimal, gain: Decimal },
    LowshelfFO { freq: Decimal, gain: Decimal },
    HighpassFO { freq: Decimal },
    LowpassFO { freq: Decimal },
}

/// Parameters of a plain gain stage.
#[derive(Debug, Clone, PartialEq, Eq)]
pub struct GainParameters {
    pub gain: Decimal,
    pub inverted: bool,
    pub mute: bool,
}

impl GainParameters {
    /// A gain stage that is neither inverted nor muted.
    pub fn new(gain: Decimal) -> (r: GainParameters)
        ensures
            r.gain == gain,
            !r.inverted,
            !r.mute,
    {
        GainParameters { gain, inverted: false, mute: false }
    }
}

/// A named processing stage: either a biquad band or a gain stage.
#[derive(Debug, Clone, PartialEq, Eq)]
pub enum Filter {
    Biquad { parameters: BiquadParameters },
    Gain { parameters: GainParameters },
}

/// One stage of the output signal chain.
#[derive(Debug, Clone, PartialEq, Eq)]
pub enum PipelineStep {
    Mixer { name: Vec<u8> },
    Filter { channel: usize, names: Vec<Vec<u8>> },
}

/// A mixer together with its name.
#[derive(Debug, Clone, PartialEq, Eq)]
pub struct NamedMixer {
    pub name: Vec<u8>,
    pub mixer: Mixer,
}

/// A filter together with its name.
#[derive(Debug, Clone, PartialEq, Eq)]
pub struct NamedFilter {
    pub name: Vec<u8>,
    pub filter: Filter,
}

/// Digit-string well-formedness of every decimal held by a peaking width.
pub open spec fn peaking_wf(p: PeakingWidth) -> bool {
    match p {
        PeakingWidth::Q { freq, q, gain } => freq.wf() && q.wf() && gain.wf(),
        PeakingWidth::Bandwidth { freq, bandwidth, gain } => freq.wf() && bandwidth.wf()
            && gain.wf(),
    }
}

/// Digit-string well-formedness of every decimal held by a band.
pub open spec fn biquad_wf(b: BiquadParameters) -> bool {
    match b {
        BiquadParameters::Highpass { freq, q } => freq.wf() && q.wf(),
        BiquadParameters::Lowpass { freq, q } => freq.wf() && q.wf(),
        BiquadParameters::Peaking(p) => peaking_wf(p),
        BiquadParameters::HighshelfFO { freq, gain } => freq.wf() && gain.wf(),
        BiquadParameters::LowshelfFO { freq, gain } => freq.wf() && gain.wf(),
        BiquadParameters::HighpassFO { freq } => freq.wf(),
        BiquadParameters::LowpassFO { freq } => freq.wf(),
    }
}

/// Well-formedness of a filter value.
pub open spec fn filter_wf(f: Filter) -> bool {
    match f {
        Filter::Biquad { parameters } => biquad_wf(parameters),
        Filter::Gain { parameters } => parameters.gain.wf(),
    }
}

/// Well-formedness of a mixer value.
pub open spec fn mixer_wf(m: Mixer) -> bool {
    forall|i: int, j: int|
        0 <= i < m.mapping@.len() && 0 <= j < m.mapping@[i].sources@.len()
            ==> (#[trigger] m.mapping@[i].sources@[j]).gain.wf()
}

/// The names of a filter entry sequence, in entry order.
pub open spec fn filter_names(es: Seq<NamedFilter>) -> Seq<Seq<u8>> {
    es.map_values(|e: NamedFilter| e.name@)
}

/// The names of a mixer entry sequence, in entry order.
pub open spec fn mixer_names(es: Seq<NamedMixer>) -> Seq<Seq<u8>> {
    es.map_values(|e: NamedMixer| e.name@)
}

/// A name sequence in strictly ascending lexicographic order (hence with
/// no repeated name).
pub open spec fn sorted_unique(names: Seq<Seq<u8>>) -> bool {
    forall|i: int, j: int| 0 <= i < j < names.len() ==> lex_lt(names[i], names[j])
}

/// `m` occurs in the name sequence.
pub open spec fn contains_name(names: Seq<Seq<u8>>, m: Seq<u8>) -> bool {
    exists|i: int| 0 <= i < names.len() && names[i] == m
}

/// The filter stored under name `m`, if any (first match).
pub open spec fn lookup_filter(es: Seq<NamedFilter>, m: Seq<u8>) -> Option<Filter>
    decreases es.len(),
{
    if es.len() == 0 {
        Option::None
    } else if es[0].name@ == m {
        Option::Some(es[0].filter)
    } else {
        lookup_filter(es.drop_first(), m)
    }
}

/// The mixer stored under name `m`, if any (first match).
pub open spec fn lookup_mixer(es: Seq<NamedMixer>, m: Seq<u8>) -> Option<Mixer>
    decreases es.len(),
{
    if es.len() == 0 {
        Option::None
    } else if es[0].name@ == m {
        Option::Some(es[0].mixer)
    } else {
        lookup_mixer(es.drop_first(), m)
    }
}

pub proof fn lemma_lookup_filter_some(es: Seq<NamedFilter>, m: Seq<u8>)
    ensures
        lookup_filter(es, m) is Some <==> contains_name(filter_names(es), m),
    decreases es.len(),
{
    if es.len() == 0 {
    } else if es[0].name@ == m {
        assert(filter_names(es)[0] == m);
    } else {
        lemma_lookup_filter_some(es.drop_first(), m);
        let t = es.drop_first();
        assert forall|i: int|
            0 <= i < filter_names(t).len() && filter_names(t)[i] == m implies contains_name(
            filter_names(es),
            m,
        ) by {
            assert(filter_names(es)[i + 1] == filter_names(t)[i]);
        }
        if contains_name(filter_names(es), m) {
            let i = choose|i: int| 0 <= i < filter_names(es).len() && filter_names(es)[i] == m;
            assert(i > 0);
            assert(filter_names(t)[i - 1] == m);
        }
    }
}

pub proof fn lemma_lookup_mixer_some(es: Seq<NamedMixer>, m: Seq<u8>)
    ensures
        lookup_mixer(es, m) is Some <==> contains_name(mixer_names(es), m),
    decreases es.len(),
{
    if es.len() == 0 {
    } else if es[0].name@ == m {
        assert(mixer_names(es)[0] == m);
    } else {
        lemma_lookup_mixer_some(es.drop_first(), m);
        let t = es.drop_first();
        assert forall|i: int|
            0 <= i < mixer_names(t).len() && mixer_names(t)[i] == m implies contains_name(
            mixer_names(es),
            m,
        ) by {
            assert(mixer_names(es)[i + 1] == mixer_names(t)[i]);
        }
        if contains_name(mixer_names(es), m) {
            let i = choose|i: int| 0 <= i < mixer_names(es).len() && mixer_names(es)[i] == m;
            assert(i > 0);
            assert(mixer_names(t)[i - 1] == m);
        }
    }
}

/// A parsed correction: the preamp gain and the EQ bands in source order.
#[derive(Debug, Clone, PartialEq, Eq)]
pub struct CorrectionFilterSet {
    pub gain: Decimal,
    pub eq_bands: Vec<BiquadParameters>,
}

impl CorrectionFilterSet {
    /// Well-formedness: every decimal in the set has valid digit strings.
    pub open spec fn wf(&self) -> bool {
        self.gain.wf() && forall|i: int|
            0 <= i < self.eq_bands@.len() ==> biquad_wf(#[trigger] self.eq_bands@[i])
    }

    /// An empty correction with the given preamp gain.
    pub fn new(gain: Decimal) -> (r: CorrectionFilterSet)
        ensures
            r.gain == gain,
            r.eq_bands@ == Seq::<BiquadParameters>::empty(),
    {
        CorrectionFilterSet { gain, eq_bands: Vec::new() }
    }
}

/// The full output configuration.
#[derive(Debug, Clone, PartialEq, Eq)]
pub struct Configuration {
    pub mixers: Vec<NamedMixer>,
    pub filters: Vec<NamedFilter>,
    pub pipeline: Vec<PipelineStep>,
}

impl Configuration {
    /// Well-formedness: both maps sorted with unique plain names and
    /// well-formed values.
    pub open spec fn wf(&self) -> bool {
        &&& sorted_unique(filter_names(self.filters@))
        &&& sorted_unique(mixer_names(self.mixers@))
        &&& forall|i: int|
            0 <= i < self.filters@.len() ==> plain_name((#[trigger] self.filters@[i]).name@)
        &&& forall|i: int|
            0 <= i < self.mixers@.len() ==> plain_name((#[trigger] self.mixers@[i]).name@)
        &&& forall|i: int| 0 <= i < self.filters@.len() ==> filter_wf((#[trigger] self.filters@[i]).filter)
        &&& forall|i: int| 0 <= i < self.mixers@.len() ==> mixer_wf((#[trigger] self.mixers@[i]).mixer)
    }

    /// Every name a pipeline step refers to exists in the matching map.
    pub open spec fn refs_valid(&self) -> bool {
        forall|i: int|
            0 <= i < self.pipeline@.len() ==> match #[trigger] self.pipeline@[i] {
                PipelineStep::Mixer { name } => contains_name(mixer_names(self.mixers@), name@),
                PipelineStep::Filter { channel, names } => forall|j: int|
                    0 <= j < names@.len() ==> contains_name(
                        filter_names(self.filters@),
                        (#[trigger] names@[j])@,
                    ),
            }
    }

    /// The empty configuration.
    pub fn new() -> (r: Configuration)
        ensures
            r.mixers@ == Seq::<NamedMixer>::empty(),
            r.filters@ == Seq::<NamedFilter>::empty(),
            r.pipeline@ == Seq::<PipelineStep>::empty(),
            r.wf(),
            r.refs_valid(),
    {
        Configuration { mixers: Vec::new(), filters: Vec::new(), pipeline: Vec::new() }
    }
}


/// Insertion of an entry into a name-sorted filter sequence, keeping the
/// order; an entry whose name is already present would land right after
/// its namesake (the builder never lets that happen).
pub open spec fn spec_insert_filter(es: Seq<NamedFilter>, e: NamedFilter) -> Seq<NamedFilter>
    decreases es.len(),
{
    if es.len() == 0 {
        seq![e]
    } else if lex_lt(e.name@, es[0].name@) {
        seq![e] + es
    } else {
        seq![es[0]] + spec_insert_filter(es.drop_first(), e)
    }
}

/// Insertion of an entry into a name-sorted mixer sequence.
pub open spec fn spec_insert_mixer(es: Seq<NamedMixer>, e: NamedMixer) -> Seq<NamedMixer>
    decreases es.len(),
{
    if es.len() == 0 {
        seq![e]
    } else if lex_lt(e.name@, es[0].name@) {
        seq![e] + es
    } else {
        seq![es[0]] + spec_insert_mixer(es.drop_first(), e)
    }
}

/// The names after an insertion are the old names plus the new one.
pub proof fn lemma_insert_filter_names(es: Seq<NamedFilter>, e: NamedFilter, m: Seq<u8>)
    ensures
        contains_name(filter_names(spec_insert_filter(es, e)), m) <==> contains_name(
            filter_names(es),
            m,
        ) || m == e.name@,
        spec_insert_filter(es, e).len() == es.len() + 1,
    decreases es.len(),
{
    let r = spec_insert_filter(es, e);
    if es.len() == 0 {
        assert(filter_names(r)[0] == e.name@);
        if contains_name(filter_names(r), m) {
            let i = choose|i: int| 0 <= i < filter_names(r).len() && filter_names(r)[i] == m;
            assert(i == 0);
        }
        assert(!contains_name(filter_names(es), m));
    } else if lex_lt(e.name@, es[0].name@) {
        assert(filter_names(r)[0] == e.name@);
        assert forall|i: int|
            0 <= i < filter_names(es).len() && filter_names(es)[i] == m implies contains_name(
            filter_names(r),
            m,
        ) by {
            assert(filter_names(r)[i + 1] == filter_names(es)[i]);
        }
        if contains_name(filter_names(r), m) {
            let i = choose|i: int| 0 <= i < filter_names(r).len() && filter_names(r)[i] == m;
            if i > 0 {
                assert(filter_names(es)[i - 1] == m);
            }
        }
    } else {
        lemma_insert_filter_names(es.drop_first(), e, m);
        let t = es.drop_first();
        let rt = spec_insert_filter(t, e);
        assert(filter_names(r)[0] == es[0].name@);
        assert forall|i: int|
            0 <= i < filter_names(rt).len() && filter_names(rt)[i] == m implies contains_name(
            filter_names(r),
            m,
        ) by {
            assert(filter_names(r)[i + 1] == filter_names(rt)[i]);
        }
        assert forall|i: int|
            0 <= i < filter_names(es).len() && filter_names(es)[i] == m implies contains_name(
            filter_names(r),
            m,
        ) by {
            if i == 0 {
                assert(filter_names(r)[0] == m);
            } else {
                assert(filter_names(t)[i - 1] == m);
                assert(contains_name(filter_names(rt), m));
                let q = choose|q: int| 0 <= q < filter_names(rt).len() && filter_names(rt)[q] == m;
                assert(filter_names(r)[q + 1] == m);
            }
        }
        if contains_name(filter_names(r), m) {
            let i = choose|i: int| 0 <= i < filter_names(r).len() && filter_names(r)[i] == m;
            if i == 0 {
                assert(filter_names(es)[0] == m);
            } else {
                assert(filter_names(rt)[i - 1] == m);
                if contains_name(filter_names(t), m) {
                    let q = choose|q: int| 0 <= q < filter_names(t).len() && filter_names(t)[q] == m;
                    assert(filter_names(es)[q + 1] == m);
                }
            }
        }
    }
}

/// The same, for mixers.
pub proof fn lemma_insert_mixer_names(es: Seq<NamedMixer>, e: NamedMixer, m: Seq<u8>)
    ensures
        contains_name(mixer_names(spec_insert_mixer(es, e)), m) <==> contains_name(
            mixer_names(es),
            m,
        ) || m == e.name@,
        spec_insert_mixer(es, e).len() == es.len() + 1,
    decreases es.len(),
{
    let r = spec_insert_mixer(es, e);
    if es.len() == 0 {
        assert(mixer_names(r)[0] == e.name@);
        if contains_name(mixer_names(r), m) {
            let i = choose|i: int| 0 <= i < mixer_names(r).len() && mixer_names(r)[i] == m;
            assert(i == 0);
        }
        assert(!contains_name(mixer_names(es), m));
    } else if lex_lt(e.name@, es[0].name@) {
        assert(mixer_names(r)[0] == e.name@);
        assert forall|i: int|
            0 <= i < mixer_names(es).len() && mixer_names(es)[i] == m implies contains_name(
            mixer_names(r),
            m,
        ) by {
            assert(mixer_names(r)[i + 1] == mixer_names(es)[i]);
        }
        if contains_name(mixer_names(r), m) {
            let i = choose|i: int| 0 <= i < mixer_names(r).len() && mixer_names(r)[i] == m;
            if i > 0 {
                assert(mixer_names(es)[i - 1] == m);
            }
        }
    } else {
        lemma_insert_mixer_names(es.drop_first(), e, m);
        let t = es.drop_first();
        let rt = spec_insert_mixer(t, e);
        assert(mixer_names(r)[0] == es[0].name@);
        assert forall|i: int|
            0 <= i < mixer_names(rt).len() && mixer_names(rt)[i] == m implies contains_name(
            mixer_names(r),
            m,
        ) by {
            assert(mixer_names(r)[i + 1] == mixer_names(rt)[i]);
        }
        assert forall|i: int|
            0 <= i < mixer_names(es).len() && mixer_names(es)[i] == m implies contains_name(
            mixer_names(r),
            m,
        ) by {
            if i == 0 {
                assert(mixer_names(r)[0] == m);
            } else {
                assert(mixer_names(t)[i - 1] == m);
                assert(contains_name(mixer_names(rt), m));
                let q = choose|q: int| 0 <= q < mixer_names(rt).len() && mixer_names(rt)[q] == m;
                assert(mixer_names(r)[q + 1] == m);
            }
        }
        if contains_name(mixer_names(r), m) {
            let i = choose|i: int| 0 <= i < mixer_names(r).len() && mixer_names(r)[i] == m;
            if i == 0 {
                assert(mixer_names(es)[0] == m);
            } else {
                assert(mixer_names(rt)[i - 1] == m);
                if contains_name(mixer_names(t), m) {
                    let q = choose|q: int| 0 <= q < mixer_names(t).len() && mixer_names(t)[q] == m;
                    assert(mixer_names(es)[q + 1] == m);
                }
            }
        }
    }
}

/// Inserting a fresh name into a sorted sequence keeps it sorted.
pub proof fn lemma_insert_filter_sorted(es: Seq<NamedFilter>, e: NamedFilter)
    requires
        sorted_unique(filter_names(es)),
        !contains_name(filter_names(es), e.name@),
    ensures
        sorted_unique(filter_names(spec_insert_filter(es, e))),
    decreases es.len(),
{
    let r = spec_insert_filter(es, e);
    if es.len() == 0 {
    } else if lex_lt(e.name@, es[0].name@) {
        assert forall|i: int, j: int|
            0 <= i < j < filter_names(r).len() implies lex_lt(
            filter_names(r)[i],
            filter_names(r)[j],
        ) by {
            if i == 0 {
                assert(filter_names(r)[j] == filter_names(es)[j - 1]);
                if j > 1 {
                    crate::text::lemma_lex_lt_trans(
                        e.name@,
                        filter_names(es)[0],
                        filter_names(es)[j - 1],
                    );
                }
            } else {
                assert(filter_names(r)[i] == filter_names(es)[i - 1]);
                assert(filter_names(r)[j] == filter_names(es)[j - 1]);
            }
        }
    } else {
        let t = es.drop_first();
        assert(filter_names(es)[0] == es[0].name@);
        assert forall|i: int|
            0 <= i < filter_names(t).len() implies lex_lt(es[0].name@, #[trigger] filter_names(
            t,
        )[i]) by {
            assert(filter_names(t)[i] == filter_names(es)[i + 1]);
        }
        assert(sorted_unique(filter_names(t))) by {
            assert forall|i: int, j: int|
                0 <= i < j < filter_names(t).len() implies lex_lt(
                filter_names(t)[i],
                filter_names(t)[j],
            ) by {
                assert(filter_names(t)[i] == filter_names(es)[i + 1]);
                assert(filter_names(t)[j] == filter_names(es)[j + 1]);
            }
        }
        assert(!contains_name(filter_names(t), e.name@)) by {
            if contains_name(filter_names(t), e.name@) {
                let q = choose|q: int|
                    0 <= q < filter_names(t).len() && filter_names(t)[q] == e.name@;
                assert(filter_names(es)[q + 1] == e.name@);
            }
        }
        lemma_insert_filter_sorted(t, e);
        let rt = spec_insert_filter(t, e);
        // the head is below the new name too
        assert(es[0].name@ != e.name@) by {
            assert(filter_names(es)[0] == es[0].name@);
        }
        crate::text::lemma_lex_lt_total(e.name@, es[0].name@);
        assert(lex_lt(es[0].name@, e.name@));
        assert forall|i: int, j: int|
            0 <= i < j < filter_names(r).len() implies lex_lt(
            filter_names(r)[i],
            filter_names(r)[j],
        ) by {
            if i == 0 {
                assert(filter_names(r)[j] == filter_names(rt)[j - 1]);
                lemma_insert_filter_names(t, e, filter_names(rt)[j - 1]);
                assert(contains_name(filter_names(rt), filter_names(rt)[j - 1]));
                if filter_names(rt)[j - 1] == e.name@ {
                } else {
                    let q = choose|q: int|
                        0 <= q < filter_names(t).len() && filter_names(t)[q] == filter_names(
                            rt,
                        )[j - 1];
                }
            } else {
                assert(filter_names(r)[i] == filter_names(rt)[i - 1]);
                assert(filter_names(r)[j] == filter_names(rt)[j - 1]);
            }
        }
    }
}

/// The same, for mixers.
pub proof fn lemma_insert_mixer_sorted(es: Seq<NamedMixer>, e: NamedMixer)
    requires
        sorted_unique(mixer_names(es)),
        !contains_name(mixer_names(es), e.name@),
    ensures
        sorted_unique(mixer_names(spec_insert_mixer(es, e))),
    decreases es.len(),
{
    let r = spec_insert_mixer(es, e);
    if es.len() == 0 {
    } else if lex_lt(e.name@, es[0].name@) {
        assert forall|i: int, j: int|
            0 <= i < j < mixer_names(r).len() implies lex_lt(
            mixer_names(r)[i],
            mixer_names(r)[j],
        ) by {
            if i == 0 {
                assert(mixer_names(r)[j] == mixer_names(es)[j - 1]);
                if j > 1 {
                    crate::text::lemma_lex_lt_trans(
                        e.name@,
                        mixer_names(es)[0],
                        mixer_names(es)[j - 1],
                    );
                }
            } else {
                assert(mixer_names(r)[i] == mixer_names(es)[i - 1]);
                assert(mixer_names(r)[j] == mixer_names(es)[j - 1]);
            }
        }
    } else {
        let t = es.drop_first();
        assert(mixer_names(es)[0] == es[0].name@);
        assert forall|i: int|
            0 <= i < mixer_names(t).len() implies lex_lt(es[0].name@, #[trigger] mixer_names(
            t,
        )[i]) by {
            assert(mixer_names(t)[i] == mixer_names(es)[i + 1]);
        }
        assert(sorted_unique(mixer_names(t))) by {
            assert forall|i: int, j: int|
                0 <= i < j < mixer_names(t).len() implies lex_lt(
                mixer_names(t)[i],
                mixer_names(t)[j],
            ) by {
                assert(mixer_names(t)[i] == mixer_names(es)[i + 1]);
                assert(mixer_names(t)[j] == mixer_names(es)[j + 1]);
            }
        }
        assert(!contains_name(mixer_names(t), e.name@)) by {
            if contains_name(mixer_names(t), e.name@) {
                let q = choose|q: int| 0 <= q < mixer_names(t).len() && mixer_names(t)[q] == e.name@;
                assert(mixer_names(es)[q + 1] == e.name@);
            }
        }
        lemma_insert_mixer_sorted(t, e);
        let rt = spec_insert_mixer(t, e);
        assert(es[0].name@ != e.name@) by {
            assert(mixer_names(es)[0] == es[0].name@);
        }
        crate::text::lemma_lex_lt_total(e.name@, es[0].name@);
        assert(lex_lt(es[0].name@, e.name@));
        assert forall|i: int, j: int|
            0 <= i < j < mixer_names(r).len() implies lex_lt(
            mixer_names(r)[i],
            mixer_names(r)[j],
        ) by {
            if i == 0 {
                assert(mixer_names(r)[j] == mixer_names(rt)[j - 1]);
                lemma_insert_mixer_names(t, e, mixer_names(rt)[j - 1]);
                assert(contains_name(mixer_names(rt), mixer_names(rt)[j - 1]));
                if mixer_names(rt)[j - 1] == e.name@ {
                } else {
                    let q = choose|q: int|
                        0 <= q < mixer_names(t).len() && mixer_names(t)[q] == mixer_names(
                            rt,
                        )[j - 1];
                }
            } else {
                assert(mixer_names(r)[i] == mixer_names(rt)[i - 1]);
                assert(mixer_names(r)[j] == mixer_names(rt)[j - 1]);
            }
        }
    }
}

/// Looking a name up after an insertion: the fresh entry answers for its
/// own name, every other name is untouched.
pub proof fn lemma_insert_filter_lookup(es: Seq<NamedFilter>, e: NamedFilter, m: Seq<u8>)
    requires
        !contains_name(filter_names(es), e.name@),
    ensures
        lookup_filter(spec_insert_filter(es, e), m) == if m == e.name@ {
            Option::Some(e.filter)
        } else {
            lookup_filter(es, m)
        },
    decreases es.len(),
{
    let r = spec_insert_filter(es, e);
    if es.len() == 0 {
        assert(r == seq![e]);
        assert(r[0] == e);
        if m != e.name@ {
            assert(r.drop_first() =~= Seq::<NamedFilter>::empty());
            assert(lookup_filter(r, m) == lookup_filter(r.drop_first(), m));
            assert(lookup_filter(Seq::<NamedFilter>::empty(), m) is None);
        } else {
            assert(lookup_filter(r, m) == Option::Some(e.filter));
        }
    } else if lex_lt(e.name@, es[0].name@) {
        assert(r[0] == e);
        if m != e.name@ {
            assert(r.drop_first() =~= es);
            assert(lookup_filter(r, m) == lookup_filter(es, m));
        } else {
            assert(lookup_filter(r, m) == Option::Some(e.filter));
        }
    } else {
        assert(!contains_name(filter_names(es.drop_first()), e.name@)) by {
            if contains_name(filter_names(es.drop_first()), e.name@) {
                let q = choose|q: int|
                    0 <= q < filter_names(es.drop_first()).len() && filter_names(
                        es.drop_first(),
                    )[q] == e.name@;
                assert(filter_names(es)[q + 1] == e.name@);
            }
        }
        lemma_insert_filter_lookup(es.drop_first(), e, m);
        assert(r[0] == es[0]);
        assert(r.drop_first() =~= spec_insert_filter(es.drop_first(), e));
        assert(es[0].name@ != e.name@) by {
            assert(filter_names(es)[0] == es[0].name@);
        }
        if es[0].name@ == m {
            assert(lookup_filter(r, m) == Option::Some(es[0].filter));
            assert(lookup_filter(es, m) == Option::Some(es[0].filter));
        } else {
            assert(lookup_filter(r, m) == lookup_filter(r.drop_first(), m));
            assert(lookup_filter(es, m) == lookup_filter(es.drop_first(), m));
        }
    }
}

/// The same, for mixers.
pub proof fn lemma_insert_mixer_lookup(es: Seq<NamedMixer>, e: NamedMixer, m: Seq<u8>)
    requires
        !contains_name(mixer_names(es), e.name@),
    ensures
        lookup_mixer(spec_insert_mixer(es, e), m) == if m == e.name@ {
            Option::Some(e.mixer)
        } else {
            lookup_mixer(es, m)
        },
    decreases es.len(),
{
    let r = spec_insert_mixer(es, e);
    if es.len() == 0 {
        assert(r == seq![e]);
        assert(r[0] == e);
        if m != e.name@ {
            assert(r.drop_first() =~= Seq::<NamedMixer>::empty());
            assert(lookup_mixer(r, m) == lookup_mixer(r.drop_first(), m));
            assert(lookup_mixer(Seq::<NamedMixer>::empty(), m) is None);
        } else {
            assert(lookup_mixer(r, m) == Option::Some(e.mixer));
        }
    } else if lex_lt(e.name@, es[0].name@) {
        assert(r[0] == e);
        if m != e.name@ {
            assert(r.drop_first() =~= es);
            assert(lookup_mixer(r, m) == lookup_mixer(es, m));
        } else {
            assert(lookup_mixer(r, m) == Option::Some(e.mixer));
        }
    } else {
        assert(!contains_name(mixer_names(es.drop_first()), e.name@)) by {
            if contains_name(mixer_names(es.drop_first()), e.name@) {
                let q = choose|q: int|
                    0 <= q < mixer_names(es.drop_first()).len() && mixer_names(
                        es.drop_first(),
                    )[q] == e.name@;
                assert(mixer_names(es)[q + 1] == e.name@);
            }
        }
        lemma_insert_mixer_lookup(es.drop_first(), e, m);
        assert(r[0] == es[0]);
        assert(r.drop_first() =~= spec_insert_mixer(es.drop_first(), e));
        assert(es[0].name@ != e.name@) by {
            assert(mixer_names(es)[0] == es[0].name@);
        }
        if es[0].name@ == m {
            assert(lookup_mixer(r, m) == Option::Some(es[0].mixer));
            assert(lookup_mixer(es, m) == Option::Some(es[0].mixer));
        } else {
            assert(lookup_mixer(r, m) == lookup_mixer(r.drop_first(), m));
            assert(lookup_mixer(es, m) == lookup_mixer(es.drop_first(), m));
        }
    }
}

/// Where the new entry lands: after the `i` entries whose names are below
/// it and before all the rest.
pub proof fn lemma_insert_filter_at(es: Seq<NamedFilter>, e: NamedFilter, i: int)
    requires
        0 <= i <= es.len(),
        forall|j: int| 0 <= j < i ==> lex_lt((#[trigger] es[j]).name@, e.name@),
        i < es.len() ==> !lex_lt(es[i].name@, e.name@) && es[i].name@ != e.name@,
    ensures
        spec_insert_filter(es, e) =~= es.take(i) + seq![e] + es.skip(i),
    decreases i,
{
    if i == 0 {
        if es.len() == 0 {
            assert(spec_insert_filter(es, e) =~= es.take(0) + seq![e] + es.skip(0));
        } else {
            crate::text::lemma_lex_lt_total(e.name@, es[0].name@);
            assert(lex_lt(e.name@, es[0].name@));
            assert(spec_insert_filter(es, e) =~= es.take(0) + seq![e] + es.skip(0));
        }
    } else {
        let t = es.drop_first();
        assert forall|j: int| 0 <= j < i - 1 implies lex_lt((#[trigger] t[j]).name@, e.name@) by {
            assert(t[j] == es[j + 1]);
        }
        if i - 1 < t.len() {
            assert(t[i - 1] == es[i]);
        }
        lemma_insert_filter_at(t, e, i - 1);
        crate::text::lemma_lex_lt_total(e.name@, es[0].name@);
        assert(!lex_lt(e.name@, es[0].name@));
        assert(spec_insert_filter(es, e) == seq![es[0]] + spec_insert_filter(t, e));
        assert(seq![es[0]] + (t.take(i - 1) + seq![e] + t.skip(i - 1)) =~= es.take(i) + seq![e]
            + es.skip(i));
    }
}

/// The same, for mixers.
pub proof fn lemma_insert_mixer_at(es: Seq<NamedMixer>, e: NamedMixer, i: int)
    requires
        0 <= i <= es.len(),
        forall|j: int| 0 <= j < i ==> lex_lt((#[trigger] es[j]).name@, e.name@),
        i < es.len() ==> !lex_lt(es[i].name@, e.name@) && es[i].name@ != e.name@,
    ensures
        spec_insert_mixer(es, e) =~= es.take(i) + seq![e] + es.skip(i),
    decreases i,
{
    if i == 0 {
        if es.len() == 0 {
            assert(spec_insert_mixer(es, e) =~= es.take(0) + seq![e] + es.skip(0));
        } else {
            crate::text::lemma_lex_lt_total(e.name@, es[0].name@);
            assert(lex_lt(e.name@, es[0].name@));
            assert(spec_insert_mixer(es, e) =~= es.take(0) + seq![e] + es.skip(0));
        }
    } else {
        let t = es.drop_first();
        assert forall|j: int| 0 <= j < i - 1 implies lex_lt((#[trigger] t[j]).name@, e.name@) by {
            assert(t[j] == es[j + 1]);
        }
        if i - 1 < t.len() {
            assert(t[i - 1] == es[i]);
        }
        lemma_insert_mixer_at(t, e, i - 1);
        crate::text::lemma_lex_lt_total(e.name@, es[0].name@);
        assert(!lex_lt(e.name@, es[0].name@));
        assert(spec_insert_mixer(es, e) == seq![es[0]] + spec_insert_mixer(t, e));
        assert(seq![es[0]] + (t.take(i - 1) + seq![e] + t.skip(i - 1)) =~= es.take(i) + seq![e]
            + es.skip(i));
    }
}

impl Configuration {
    /// Inserts a filter in name order; refuses a name already present and
    /// then leaves the configuration unchanged.
    pub fn insert_filter(&mut self, e: NamedFilter) -> (ok: bool)
        requires
            sorted_unique(filter_names(old(self).filters@)),
        ensures
            ok == !contains_name(filter_names(old(self).filters@), e.name@),
            ok ==> final(self).filters@ == spec_insert_filter(old(self).filters@, e),
            !ok ==> final(self).filters@ == old(self).filters@,
            final(self).mixers@ == old(self).mixers@,
            final(self).pipeline@ == old(self).pipeline@,
    {
        let n: usize = self.filters.len();
        let mut i: usize = 0;
        while i < n && crate::text::lex_lt_exec(self.filters[i].name.as_slice(), e.name.as_slice())
            invariant
                0 <= i <= n,
                n == self.filters@.len(),
                forall|j: int| 0 <= j < i ==> lex_lt((#[trigger] self.filters@[j]).name@, e.name@),
            decreases n - i,
        {
            i += 1;
        }
        if i < n && crate::text::bytes_eq(self.filters[i].name.as_slice(), e.name.as_slice()) {
            proof {
                assert(filter_names(self.filters@)[i as int] == e.name@);
            }
            return false;
        }
        proof {
            let names = filter_names(old(self).filters@);
            assert forall|q: int| 0 <= q < names.len() implies names[q] != e.name@ by {
                assert(names[q] == old(self).filters@[q].name@);
                if q < i {
                    crate::text::lemma_lex_lt_total(names[q], e.name@);
                } else if q == i {
                } else {
                    // names[i] is at or above e.name, and names[q] is above names[i]
                    crate::text::lemma_lex_lt_total(e.name@, names[i as int]);
                    crate::text::lemma_lex_lt_trans(e.name@, names[i as int], names[q]);
                    crate::text::lemma_lex_lt_total(e.name@, names[q]);
                }
            }
            if i < n {
                crate::text::lemma_lex_lt_total(old(self).filters@[i as int].name@, e.name@);
            }
            lemma_insert_filter_at(old(self).filters@, e, i as int);
        }
        self.filters.insert(i, e);
        proof {
            assert(self.filters@ =~= old(self).filters@.take(i as int) + seq![e] + old(
                self,
            ).filters@.skip(i as int));
        }
        true
    }

    /// Inserts a mixer in name order; refuses a name already present.
    pub fn insert_mixer(&mut self, e: NamedMixer) -> (ok: bool)
        requires
            sorted_unique(mixer_names(old(self).mixers@)),
        ensures
            ok == !contains_name(mixer_names(old(self).mixers@), e.name@),
            ok ==> final(self).mixers@ == spec_insert_mixer(old(self).mixers@, e),
            !ok ==> final(self).mixers@ == old(self).mixers@,
            final(self).filters@ == old(self).filters@,
            final(self).pipeline@ == old(self).pipeline@,
    {
        let n: usize = self.mixers.len();
        let mut i: usize = 0;
        while i < n && crate::text::lex_lt_exec(self.mixers[i].name.as_slice(), e.name.as_slice())
            invariant
                0 <= i <= n,
                n == self.mixers@.len(),
                forall|j: int| 0 <= j < i ==> lex_lt((#[trigger] self.mixers@[j]).name@, e.name@),
            decreases n - i,
        {
            i += 1;
        }
        if i < n && crate::text::bytes_eq(self.mixers[i].name.as_slice(), e.name.as_slice()) {
            proof {
                assert(mixer_names(self.mixers@)[i as int] == e.name@);
            }
            return false;
        }
        proof {
            let names = mixer_names(old(self).mixers@);
            assert forall|q: int| 0 <= q < names.len() implies names[q] != e.name@ by {
                assert(names[q] == old(self).mixers@[q].name@);
                if q < i {
                    crate::text::lemma_lex_lt_total(names[q], e.name@);
                } else if q == i {
                } else {
                    crate::text::lemma_lex_lt_total(e.name@, names[i as int]);
                    crate::text::lemma_lex_lt_trans(e.name@, names[i as int], names[q]);
                    crate::text::lemma_lex_lt_total(e.name@, names[q]);
                }
            }
            if i < n {
                crate::text::lemma_lex_lt_total(old(self).mixers@[i as int].name@, e.name@);
            }
            lemma_insert_mixer_at(old(self).mixers@, e, i as int);
        }
        self.mixers.insert(i, e);
        proof {
            assert(self.mixers@ =~= old(self).mixers@.take(i as int) + seq![e] + old(
                self,
            ).mixers@.skip(i as int));
        }
        true
    }
}


/// Why a configuration could not be assembled.
#[derive(Debug, Clone, PartialEq, Eq)]
pub enum BuildError {
    /// Two stages would share this name; nothing is silently overwritten.
    NameCollision { name: Vec<u8> },
}

/// The name of the correction preamp gain stage.
pub open spec fn preamp_name() -> Seq<u8> {
    "01_Preamp_Gain".spec_bytes()
}

/// The name of the correction band at 0-based position `i`.
pub open spec fn band_name(i: nat) -> Seq<u8> {
    "Correction_Eq_Band_".spec_bytes() + crate::text::dec_digits_of(i)
}

/// The correction stage's name sequence: the preamp first, then each
/// band in parse order.
pub open spec fn correction_names(n: nat) -> Seq<Seq<u8>> {
    Seq::new(
        n + 1,
        |k: int|
            if k == 0 {
                preamp_name()
            } else {
                band_name((k - 1) as nat)
            },
    )
}

/// The generated names are plain, pairwise distinct, and begin with the
/// bytes that keep them apart from every preset name.
pub proof fn lemma_correction_names()
    ensures
        plain_name(preamp_name()),
        preamp_name().len() == 14,
        preamp_name()[0] == 48 && preamp_name()[1] == 49,
        forall|i: nat| plain_name(#[trigger] band_name(i)),
        forall|i: nat| (#[trigger] band_name(i))[0] == 67,
        forall|i: nat| #[trigger] band_name(i) != preamp_name(),
        forall|i: nat, j: nat| i != j ==> #[trigger] band_name(i) != #[trigger] band_name(j),
{
    reveal_strlit("01_Preamp_Gain");
    reveal_strlit("Correction_Eq_Band_");
    assert(vstd::string::is_ascii("01_Preamp_Gain"));
    assert(vstd::string::is_ascii("Correction_Eq_Band_"));
    vstd::string::is_ascii_spec_bytes("01_Preamp_Gain");
    vstd::string::is_ascii_spec_bytes("Correction_Eq_Band_");
    let pre = "Correction_Eq_Band_".spec_bytes();
    assert(plain_name(preamp_name()));
    assert(pre.len() == 19);
    assert forall|i: nat| plain_name(#[trigger] band_name(i)) by {
        crate::text::lemma_dec_digits_wf(i);
        let d = crate::text::dec_digits_of(i);
        assert forall|k: int| 0 <= k < band_name(i).len() implies crate::text::is_name_byte(
            #[trigger] band_name(i)[k],
        ) by {
            if k < 19 {
                assert(band_name(i)[k] == pre[k]);
            } else {
                assert(band_name(i)[k] == d[k - 19]);
                assert(crate::text::is_digit(d[k - 19]));
            }
        }
    }
    assert forall|i: nat| (#[trigger] band_name(i))[0] == 67 by {
        assert(band_name(i)[0] == pre[0]);
    }
    assert forall|i: nat| #[trigger] band_name(i) != preamp_name() by {
        assert(band_name(i)[0] == pre[0]);
        assert(pre[0] == 67);
        assert(preamp_name()[0] == 48);
    }
    assert forall|i: nat, j: nat| i != j implies #[trigger] band_name(i) != #[trigger] band_name(
        j,
    ) by {
        if band_name(i) == band_name(j) {
            let di = crate::text::dec_digits_of(i);
            let dj = crate::text::dec_digits_of(j);
            assert(di.len() == dj.len());
            assert(di =~= dj) by {
                assert forall|k: int| 0 <= k < di.len() implies di[k] == dj[k] by {
                    assert(band_name(i)[19 + k] == di[k]);
                    assert(band_name(j)[19 + k] == dj[k]);
                }
            }
            crate::text::lemma_dec_digits_injective(i, j);
        }
    }
}

/// The correction names are pairwise distinct.
pub proof fn lemma_correction_names_distinct(n: nat)
    ensures
        forall|i: int, j: int|
            0 <= i < j < correction_names(n).len() ==> correction_names(n)[i] != correction_names(
                n,
            )[j],
{
    lemma_correction_names();
    assert forall|i: int, j: int|
        0 <= i < j < correction_names(n).len() implies correction_names(n)[i] != correction_names(
        n,
    )[j] by {
        if i == 0 {
            assert(correction_names(n)[j] == band_name((j - 1) as nat));
        } else {
            assert(correction_names(n)[i] == band_name((i - 1) as nat));
            assert(correction_names(n)[j] == band_name((j - 1) as nat));
        }
    }
}

/// Prints the preamp stage's name.
pub fn preamp_name_vec() -> (r: Vec<u8>)
    ensures
        r@ == preamp_name(),
{
    "01_Preamp_Gain".as_bytes_vec()
}

/// Prints the name of the band at 0-based position `i`.
pub fn band_name_vec(i: usize) -> (r: Vec<u8>)
    ensures
        r@ == band_name(i as nat),
{
    let mut v = "Correction_Eq_Band_".as_bytes_vec();
    let mut d = crate::text::u64_digits(i as u64);
    v.append(&mut d);
    proof {
        assert(i as u64 as nat == i as nat);
        assert(v@ =~= band_name(i as nat));
    }
    v
}

/// `j`th of `names` repeats an earlier name.
pub open spec fn dup_at(names: Seq<Seq<u8>>, j: int) -> bool {
    exists|i: int| 0 <= i < j && names[i] == names[j]
}

/// Some name of the sequence repeats an earlier one.
pub open spec fn has_dup(names: Seq<Seq<u8>>) -> bool {
    exists|j: int| 0 <= j < names.len() && dup_at(names, j)
}

/// The `j`th of the names `ns` is new: not in `base` and not among the
/// earlier names of `ns`.
pub open spec fn fresh_at(base: Seq<Seq<u8>>, ns: Seq<Seq<u8>>, j: int) -> bool {
    !contains_name(base, ns[j]) && forall|i: int| 0 <= i < j ==> ns[i] != ns[j]
}

impl Configuration {
    /// Inserts the filter entries in order; stops at the first entry
    /// whose name is already taken and reports that name.
    pub fn insert_all_filters(&mut self, es: Vec<NamedFilter>) -> (r: Result<(), BuildError>)
        requires
            old(self).wf(),
            forall|j: int|
                0 <= j < es@.len() ==> plain_name((#[trigger] es@[j]).name@) && filter_wf(
                    es@[j].filter,
                ),
        ensures
            final(self).mixers@ == old(self).mixers@,
            final(self).pipeline@ == old(self).pipeline@,
            r is Ok <==> (forall|j: int|
                0 <= j < es@.len() ==> fresh_at(
                    filter_names(old(self).filters@),
                    filter_names(es@),
                    j,
                )),
            r is Ok ==> {
                &&& final(self).wf()
                &&& forall|m: Seq<u8>|
                    contains_name(filter_names(final(self).filters@), m) <==> (contains_name(
                        filter_names(old(self).filters@),
                        m,
                    ) || contains_name(filter_names(es@), m))
                &&& forall|j: int|
                    0 <= j < es@.len() ==> lookup_filter(
                        final(self).filters@,
                        (#[trigger] es@[j]).name@,
                    ) == Option::Some(es@[j].filter)
                &&& forall|m: Seq<u8>|
                    !contains_name(filter_names(es@), m) ==> lookup_filter(
                        final(self).filters@,
                        m,
                    ) == lookup_filter(old(self).filters@, m)
            },
            r matches Err(e) ==> match e {
                BuildError::NameCollision { name } => exists|j: int|
                    {
                        &&& 0 <= j < es@.len()
                        &&& !fresh_at(filter_names(old(self).filters@), filter_names(es@), j)
                        &&& forall|i: int|
                            0 <= i < j ==> fresh_at(
                                filter_names(old(self).filters@),
                                filter_names(es@),
                                i,
                            )
                        &&& name@ == filter_names(es@)[j]
                    },
            },
    {
        let ghost base = filter_names(old(self).filters@);
        let ghost base_entries = old(self).filters@;
        let ghost keep1 = old(self).mixers@;
        let ghost keep2 = old(self).pipeline@;
        let ghost ns = filter_names(es@);
        let ghost es0 = es@;
        let mut es = es;
        let n: usize = es.len();
        let mut k: usize = 0;
        proof {
            assert forall|t: int| 0 <= t < base_entries.len() implies contains_name(
                filter_names(self.filters@),
                (#[trigger] base_entries[t]).name@,
            ) by {
                assert(filter_names(self.filters@)[t] == base_entries[t].name@);
            }
            assert forall|t: int| 0 <= t < self.filters@.len() implies contains_name(
                base,
                (#[trigger] self.filters@[t]).name@,
            ) by {
                assert(base[t] == self.filters@[t].name@);
            }
        }
        #[verifier::loop_isolation(false)]
        while k < n
            invariant
                0 <= k <= n,
                n == es0.len(),
                es@ =~= es0.skip(k as int),
                ns == filter_names(es0),
                base == filter_names(base_entries),
                forall|j: int|
                    0 <= j < es0.len() ==> plain_name((#[trigger] es0[j]).name@) && filter_wf(
                        es0[j].filter,
                    ),
                self.wf(),
                self.mixers@ == keep1,
                self.pipeline@ == keep2,
                forall|j: int| 0 <= j < k ==> fresh_at(base, ns, j),
                forall|t: int|
                    0 <= t < self.filters@.len() ==> contains_name(
                        base,
                        (#[trigger] self.filters@[t]).name@,
                    ) || contains_name(ns.take(k as int), self.filters@[t].name@),
                forall|j: int|
                    0 <= j < k ==> contains_name(filter_names(self.filters@), #[trigger] ns[j]),
                forall|t: int|
                    0 <= t < base_entries.len() ==> contains_name(
                        filter_names(self.filters@),
                        (#[trigger] base_entries[t]).name@,
                    ),
                forall|t: int|
                    0 <= t < base_entries.len() ==> lookup_filter(
                        self.filters@,
                        (#[trigger] base_entries[t]).name@,
                    ) == lookup_filter(base_entries, base_entries[t].name@),
                forall|j: int|
                    0 <= j < k ==> lookup_filter(self.filters@, (#[trigger] es0[j]).name@)
                        == Option::Some(es0[j].filter),
            decreases n - k,
        {
            let e = es.remove(0);
            proof {
                assert(es0.skip(k as int)[0] == es0[k as int]);
                assert(e == es0[k as int]);
                assert(es@ =~= es0.skip(k + 1));
                assert(ns[k as int] == es0[k as int].name@);
            }
            let name_copy = crate::text::sub_vec(e.name.as_slice(), 0, e.name.len());
            proof {
                assert(name_copy@ =~= e.name@);
            }
            let ghost before = self.filters@;
            let ok = self.insert_filter(e);
            if !ok {
                proof {
                    assert(contains_name(filter_names(before), ns[k as int]));
                    assert(!fresh_at(base, ns, k as int)) by {
                        let t = choose|t: int|
                            0 <= t < filter_names(before).len() && filter_names(before)[t]
                                == ns[k as int];
                        assert(filter_names(before)[t] == before[t].name@);
                        assert(contains_name(base, before[t].name@) || contains_name(
                            ns.take(k as int),
                            before[t].name@,
                        ));
                        if contains_name(ns.take(k as int), ns[k as int]) {
                            let i = choose|i: int|
                                0 <= i < k && (#[trigger] ns.take(k as int)[i]) == ns[k as int];
                            assert(ns[i] == ns[k as int]);
                        }
                    }
                }
                return Err(BuildError::NameCollision { name: name_copy });
            }
            proof {
                let e0 = es0[k as int];
                assert(fresh_at(base, ns, k as int)) by {
                    assert(!contains_name(filter_names(before), ns[k as int]));
                    assert forall|i: int| 0 <= i < k implies ns[i] != ns[k as int] by {
                        assert(contains_name(filter_names(before), ns[i]));
                    }
                    assert(!contains_name(base, ns[k as int])) by {
                        if contains_name(base, ns[k as int]) {
                            let t = choose|t: int|
                                0 <= t < base.len() && (#[trigger] base[t]) == ns[k as int];
                            assert(base[t] == base_entries[t].name@);
                            assert(contains_name(filter_names(before), base_entries[t].name@));
                        }
                    }
                }
                lemma_insert_filter_sorted(before, e0);
                assert(sorted_unique(filter_names(self.filters@)));
                assert forall|t: int| 0 <= t < self.filters@.len() implies plain_name(
                    (#[trigger] self.filters@[t]).name@,
                ) && filter_wf(self.filters@[t].filter) by {
                    lemma_insert_filter_at_member(before, e0, t);
                }
                assert forall|t: int| 0 <= t < self.filters@.len() implies contains_name(
                    base,
                    (#[trigger] self.filters@[t]).name@,
                ) || contains_name(ns.take(k + 1), self.filters@[t].name@) by {
                    lemma_insert_filter_at_member(before, e0, t);
                    if self.filters@[t] == e0 {
                        assert(ns.take(k + 1)[k as int] == ns[k as int]);
                    } else {
                        let u = choose|u: int|
                            0 <= u < before.len() && #[trigger] before[u] == self.filters@[t];
                        assert(contains_name(base, before[u].name@) || contains_name(
                            ns.take(k as int),
                            before[u].name@,
                        ));
                        if contains_name(ns.take(k as int), before[u].name@) {
                            let i = choose|i: int|
                                0 <= i < k && (#[trigger] ns.take(k as int)[i]) == before[u].name@;
                            assert(ns.take(k + 1)[i] == ns[i]);
                        }
                    }
                }
                assert forall|j: int| 0 <= j < k + 1 implies contains_name(
                    filter_names(self.filters@),
                    #[trigger] ns[j],
                ) by {
                    lemma_insert_filter_names(before, e0, ns[j]);
                }
                assert forall|t: int| 0 <= t < base_entries.len() implies contains_name(
                    filter_names(self.filters@),
                    (#[trigger] base_entries[t]).name@,
                ) by {
                    lemma_insert_filter_names(before, e0, base_entries[t].name@);
                }
                assert forall|t: int| 0 <= t < base_entries.len() implies lookup_filter(
                    self.filters@,
                    (#[trigger] base_entries[t]).name@,
                ) == lookup_filter(base_entries, base_entries[t].name@) by {
                    lemma_insert_filter_lookup(before, e0, base_entries[t].name@);
                    assert(base_entries[t].name@ != e0.name@) by {
                        assert(base[t] == base_entries[t].name@);
                    }
                }
                assert forall|j: int| 0 <= j < k + 1 implies lookup_filter(
                    self.filters@,
                    (#[trigger] es0[j]).name@,
                ) == Option::Some(es0[j].filter) by {
                    lemma_insert_filter_lookup(before, e0, es0[j].name@);
                    if j < k {
                        assert(es0[j].name@ != e0.name@) by {
                            assert(ns[j] == es0[j].name@);
                        }
                    }
                }
            }
            k += 1;
        }
        proof {
            assert(ns.take(n as int) =~= ns);
            assert forall|m: Seq<u8>|
                contains_name(filter_names(self.filters@), m) <==> (contains_name(base, m)
                    || contains_name(ns, m)) by {
                if contains_name(filter_names(self.filters@), m) {
                    let t = choose|t: int|
                        0 <= t < filter_names(self.filters@).len() && (#[trigger] filter_names(
                            self.filters@,
                        )[t]) == m;
                    assert(filter_names(self.filters@)[t] == self.filters@[t].name@);
                    assert(contains_name(base, self.filters@[t].name@) || contains_name(
                        ns.take(n as int),
                        self.filters@[t].name@,
                    ));
                }
                if contains_name(base, m) {
                    let t = choose|t: int| 0 <= t < base.len() && (#[trigger] base[t]) == m;
                    assert(base[t] == base_entries[t].name@);
                    assert(contains_name(filter_names(self.filters@), base_entries[t].name@));
                }
                if contains_name(ns, m) {
                    let j = choose|j: int| 0 <= j < ns.len() && (#[trigger] ns[j]) == m;
                    assert(contains_name(filter_names(self.filters@), ns[j]));
                }
            }
            assert forall|m: Seq<u8>| !contains_name(ns, m) implies lookup_filter(
                self.filters@,
                m,
            ) == lookup_filter(base_entries, m) by {
                if contains_name(base, m) {
                    let t = choose|t: int| 0 <= t < base.len() && (#[trigger] base[t]) == m;
                    assert(base[t] == base_entries[t].name@);
                    assert(lookup_filter(self.filters@, base_entries[t].name@) == lookup_filter(
                        base_entries,
                        base_entries[t].name@,
                    ));
                } else {
                    lemma_lookup_filter_some(self.filters@, m);
                    lemma_lookup_filter_some(base_entries, m);
                    assert(!contains_name(filter_names(self.filters@), m)) by {
                        if contains_name(filter_names(self.filters@), m) {
                            let t = choose|t: int|
                                0 <= t < filter_names(self.filters@).len() && (#[trigger] filter_names(
                                    self.filters@,
                                )[t]) == m;
                            assert(filter_names(self.filters@)[t] == self.filters@[t].name@);
                            assert(contains_name(base, self.filters@[t].name@) || contains_name(
                                ns.take(n as int),
                                self.filters@[t].name@,
                            ));
                        }
                    }
                    assert(!contains_name(filter_names(base_entries), m));
                }
            }
        }
        Ok(())
    }

    /// Inserts the mixer entries in order; stops at the first entry
    /// whose name is already taken and reports that name.
    pub fn insert_all_mixers(&mut self, es: Vec<NamedMixer>) -> (r: Result<(), BuildError>)
        requires
            old(self).wf(),
            forall|j: int|
                0 <= j < es@.len() ==> plain_name((#[trigger] es@[j]).name@) && mixer_wf(
                    es@[j].mixer,
                ),
        ensures
            final(self).filters@ == old(self).filters@,
            final(self).pipeline@ == old(self).pipeline@,
            r is Ok <==> (forall|j: int|
                0 <= j < es@.len() ==> fresh_at(
                    mixer_names(old(self).mixers@),
                    mixer_names(es@),
                    j,
                )),
            r is Ok ==> {
                &&& final(self).wf()
                &&& forall|m: Seq<u8>|
                    contains_name(mixer_names(final(self).mixers@), m) <==> (contains_name(
                        mixer_names(old(self).mixers@),
                        m,
                    ) || contains_name(mixer_names(es@), m))
                &&& forall|j: int|
                    0 <= j < es@.len() ==> lookup_mixer(
                        final(self).mixers@,
                        (#[trigger] es@[j]).name@,
                    ) == Option::Some(es@[j].mixer)
                &&& forall|m: Seq<u8>|
                    !contains_name(mixer_names(es@), m) ==> lookup_mixer(
                        final(self).mixers@,
                        m,
                    ) == lookup_mixer(old(self).mixers@, m)
            },
            r matches Err(e) ==> match e {
                BuildError::NameCollision { name } => exists|j: int|
                    {
                        &&& 0 <= j < es@.len()
                        &&& !fresh_at(mixer_names(old(self).mixers@), mixer_names(es@), j)
                        &&& forall|i: int|
                            0 <= i < j ==> fresh_at(
                                mixer_names(old(self).mixers@),
                                mixer_names(es@),
                                i,
                            )
                        &&& name@ == mixer_names(es@)[j]
                    },
            },
    {
        let ghost base = mixer_names(old(self).mixers@);
        let ghost base_entries = old(self).mixers@;
        let ghost keep1 = old(self).filters@;
        let ghost keep2 = old(self).pipeline@;
        let ghost ns = mixer_names(es@);
        let ghost es0 = es@;
        let mut es = es;
        let n: usize = es.len();
        let mut k: usize = 0;
        proof {
            assert forall|t: int| 0 <= t < base_entries.len() implies contains_name(
                mixer_names(self.mixers@),
                (#[trigger] base_entries[t]).name@,
            ) by {
                assert(mixer_names(self.mixers@)[t] == base_entries[t].name@);
            }
            assert forall|t: int| 0 <= t < self.mixers@.len() implies contains_name(
                base,
                (#[trigger] self.mixers@[t]).name@,
            ) by {
                assert(base[t] == self.mixers@[t].name@);
            }
        }
        #[verifier::loop_isolation(false)]
        while k < n
            invariant
                0 <= k <= n,
                n == es0.len(),
                es@ =~= es0.skip(k as int),
                ns == mixer_names(es0),
                base == mixer_names(base_entries),
                forall|j: int|
                    0 <= j < es0.len() ==> plain_name((#[trigger] es0[j]).name@) && mixer_wf(
                        es0[j].mixer,
                    ),
                self.wf(),
                self.filters@ == keep1,
                self.pipeline@ == keep2,
                forall|j: int| 0 <= j < k ==> fresh_at(base, ns, j),
                forall|t: int|
                    0 <= t < self.mixers@.len() ==> contains_name(
                        base,
                        (#[trigger] self.mixers@[t]).name@,
                    ) || contains_name(ns.take(k as int), self.mixers@[t].name@),
                forall|j: int|
                    0 <= j < k ==> contains_name(mixer_names(self.mixers@), #[trigger] ns[j]),
                forall|t: int|
                    0 <= t < base_entries.len() ==> contains_name(
                        mixer_names(self.mixers@),
                        (#[trigger] base_entries[t]).name@,
                    ),
                forall|t: int|
                    0 <= t < base_entries.len() ==> lookup_mixer(
                        self.mixers@,
                        (#[trigger] base_entries[t]).name@,
                    ) == lookup_mixer(base_entries, base_entries[t].name@),
                forall|j: int|
                    0 <= j < k ==> lookup_mixer(self.mixers@, (#[trigger] es0[j]).name@)
                        == Option::Some(es0[j].mixer),
            decreases n - k,
        {
            let e = es.remove(0);
            proof {
                assert(es0.skip(k as int)[0] == es0[k as int]);
                assert(e == es0[k as int]);
                assert(es@ =~= es0.skip(k + 1));
                assert(ns[k as int] == es0[k as int].name@);
            }
            let name_copy = crate::text::sub_vec(e.name.as_slice(), 0, e.name.len());
            proof {
                assert(name_copy@ =~= e.name@);
            }
            let ghost before = self.mixers@;
            let ok = self.insert_mixer(e);
            if !ok {
                proof {
                    assert(contains_name(mixer_names(before), ns[k as int]));
                    assert(!fresh_at(base, ns, k as int)) by {
                        let t = choose|t: int|
                            0 <= t < mixer_names(before).len() && mixer_names(before)[t]
                                == ns[k as int];
                        assert(mixer_names(before)[t] == before[t].name@);
                        assert(contains_name(base, before[t].name@) || contains_name(
                            ns.take(k as int),
                            before[t].name@,
                        ));
                        if contains_name(ns.take(k as int), ns[k as int]) {
                            let i = choose|i: int|
                                0 <= i < k && (#[trigger] ns.take(k as int)[i]) == ns[k as int];
                            assert(ns[i] == ns[k as int]);
                        }
                    }
                }
                return Err(BuildError::NameCollision { name: name_copy });
            }
            proof {
                let e0 = es0[k as int];
                assert(fresh_at(base, ns, k as int)) by {
                    assert(!contains_name(mixer_names(before), ns[k as int]));
                    assert forall|i: int| 0 <= i < k implies ns[i] != ns[k as int] by {
                        assert(contains_name(mixer_names(before), ns[i]));
                    }
                    assert(!contains_name(base, ns[k as int])) by {
                        if contains_name(base, ns[k as int]) {
                            let t = choose|t: int|
                                0 <= t < base.len() && (#[trigger] base[t]) == ns[k as int];
                            assert(base[t] == base_entries[t].name@);
                            assert(contains_name(mixer_names(before), base_entries[t].name@));
                        }
                    }
                }
                lemma_insert_mixer_sorted(before, e0);
                assert(sorted_unique(mixer_names(self.mixers@)));
                assert forall|t: int| 0 <= t < self.mixers@.len() implies plain_name(
                    (#[trigger] self.mixers@[t]).name@,
                ) && mixer_wf(self.mixers@[t].mixer) by {
                    lemma_insert_mixer_at_member(before, e0, t);
                }
                assert forall|t: int| 0 <= t < self.mixers@.len() implies contains_name(
                    base,
                    (#[trigger] self.mixers@[t]).name@,
                ) || contains_name(ns.take(k + 1), self.mixers@[t].name@) by {
                    lemma_insert_mixer_at_member(before, e0, t);
                    if self.mixers@[t] == e0 {
                        assert(ns.take(k + 1)[k as int] == ns[k as int]);
                    } else {
                        let u = choose|u: int|
                            0 <= u < before.len() && #[trigger] before[u] == self.mixers@[t];
                        assert(contains_name(base, before[u].name@) || contains_name(
                            ns.take(k as int),
                            before[u].name@,
                        ));
                        if contains_name(ns.take(k as int), before[u].name@) {
                            let i = choose|i: int|
                                0 <= i < k && (#[trigger] ns.take(k as int)[i]) == before[u].name@;
                            assert(ns.take(k + 1)[i] == ns[i]);
                        }
                    }
                }
                assert forall|j: int| 0 <= j < k + 1 implies contains_name(
                    mixer_names(self.mixers@),
                    #[trigger] ns[j],
                ) by {
                    lemma_insert_mixer_names(before, e0, ns[j]);
                }
                assert forall|t: int| 0 <= t < base_entries.len() implies contains_name(
                    mixer_names(self.mixers@),
                    (#[trigger] base_entries[t]).name@,
                ) by {
                    lemma_insert_mixer_names(before, e0, base_entries[t].name@);
                }
                assert forall|t: int| 0 <= t < base_entries.len() implies lookup_mixer(
                    self.mixers@,
                    (#[trigger] base_entries[t]).name@,
                ) == lookup_mixer(base_entries, base_entries[t].name@) by {
                    lemma_insert_mixer_lookup(before, e0, base_entries[t].name@);
                    assert(base_entries[t].name@ != e0.name@) by {
                        assert(base[t] == base_entries[t].name@);
                    }
                }
                assert forall|j: int| 0 <= j < k + 1 implies lookup_mixer(
                    self.mixers@,
                    (#[trigger] es0[j]).name@,
                ) == Option::Some(es0[j].mixer) by {
                    lemma_insert_mixer_lookup(before, e0, es0[j].name@);
                    if j < k {
                        assert(es0[j].name@ != e0.name@) by {
                            assert(ns[j] == es0[j].name@);
                        }
                    }
                }
            }
            k += 1;
        }
        proof {
            assert(ns.take(n as int) =~= ns);
            assert forall|m: Seq<u8>|
                contains_name(mixer_names(self.mixers@), m) <==> (contains_name(base, m)
                    || contains_name(ns, m)) by {
                if contains_name(mixer_names(self.mixers@), m) {
                    let t = choose|t: int|
                        0 <= t < mixer_names(self.mixers@).len() && (#[trigger] mixer_names(
                            self.mixers@,
                        )[t]) == m;
                    assert(mixer_names(self.mixers@)[t] == self.mixers@[t].name@);
                    assert(contains_name(base, self.mixers@[t].name@) || contains_name(
                        ns.take(n as int),
                        self.mixers@[t].name@,
                    ));
                }
                if contains_name(base, m) {
                    let t = choose|t: int| 0 <= t < base.len() && (#[trigger] base[t]) == m;
                    assert(base[t] == base_entries[t].name@);
                    assert(contains_name(mixer_names(self.mixers@), base_entries[t].name@));
                }
                if contains_name(ns, m) {
                    let j = choose|j: int| 0 <= j < ns.len() && (#[trigger] ns[j]) == m;
                    assert(contains_name(mixer_names(self.mixers@), ns[j]));
                }
            }
            assert forall|m: Seq<u8>| !contains_name(ns, m) implies lookup_mixer(
                self.mixers@,
                m,
            ) == lookup_mixer(base_entries, m) by {
                if contains_name(base, m) {
                    let t = choose|t: int| 0 <= t < base.len() && (#[trigger] base[t]) == m;
                    assert(base[t] == base_entries[t].name@);
                    assert(lookup_mixer(self.mixers@, base_entries[t].name@) == lookup_mixer(
                        base_entries,
                        base_entries[t].name@,
                    ));
                } else {
                    lemma_lookup_mixer_some(self.mixers@, m);
                    lemma_lookup_mixer_some(base_entries, m);
                    assert(!contains_name(mixer_names(self.mixers@), m)) by {
                        if contains_name(mixer_names(self.mixers@), m) {
                            let t = choose|t: int|
                                0 <= t < mixer_names(self.mixers@).len() && (#[trigger] mixer_names(
                                    self.mixers@,
                                )[t]) == m;
                            assert(mixer_names(self.mixers@)[t] == self.mixers@[t].name@);
                            assert(contains_name(base, self.mixers@[t].name@) || contains_name(
                                ns.take(n as int),
                                self.mixers@[t].name@,
                            ));
                        }
                    }
                    assert(!contains_name(mixer_names(base_entries), m));
                }
            }
        }
        Ok(())
    }

}

/// Every entry of an insertion result is the new entry or one of the old
/// ones.
proof fn lemma_insert_filter_at_member(es: Seq<NamedFilter>, e: NamedFilter, i: int)
    requires
        0 <= i < spec_insert_filter(es, e).len(),
    ensures
        spec_insert_filter(es, e)[i] == e || exists|j: int|
            0 <= j < es.len() && #[trigger] es[j] == spec_insert_filter(es, e)[i],
    decreases es.len(),
{
    let r = spec_insert_filter(es, e);
    if es.len() == 0 {
        assert(r[0] == e);
    } else if lex_lt(e.name@, es[0].name@) {
        if i > 0 {
            assert(r[i] == es[i - 1]);
        } else {
            assert(r[0] == e);
        }
    } else {
        if i == 0 {
            assert(r[0] == es[0]);
        } else {
            lemma_insert_filter_at_member(es.drop_first(), e, i - 1);
            assert(r[i] == spec_insert_filter(es.drop_first(), e)[i - 1]);
            if spec_insert_filter(es.drop_first(), e)[i - 1] != e {
                let j = choose|j: int|
                    0 <= j < es.drop_first().len() && #[trigger] es.drop_first()[j]
                        == spec_insert_filter(es.drop_first(), e)[i - 1];
                assert(es[j + 1] == r[i]);
            }
        }
    }
}

/// The same, for mixers.
proof fn lemma_insert_mixer_at_member(es: Seq<NamedMixer>, e: NamedMixer, i: int)
    requires
        0 <= i < spec_insert_mixer(es, e).len(),
    ensures
        spec_insert_mixer(es, e)[i] == e || exists|j: int|
            0 <= j < es.len() && #[trigger] es[j] == spec_insert_mixer(es, e)[i],
    decreases es.len(),
{
    let r = spec_insert_mixer(es, e);
    if es.len() == 0 {
        assert(r[0] == e);
    } else if lex_lt(e.name@, es[0].name@) {
        if i > 0 {
            assert(r[i] == es[i - 1]);
        } else {
            assert(r[0] == e);
        }
    } else {
        if i == 0 {
            assert(r[0] == es[0]);
        } else {
            lemma_insert_mixer_at_member(es.drop_first(), e, i - 1);
            assert(r[i] == spec_insert_mixer(es.drop_first(), e)[i - 1]);
            if spec_insert_mixer(es.drop_first(), e)[i - 1] != e {
                let j = choose|j: int|
                    0 <= j < es.drop_first().len() && #[trigger] es.drop_first()[j]
                        == spec_insert_mixer(es.drop_first(), e)[i - 1];
                assert(es[j + 1] == r[i]);
            }
        }
    }
}


/// The filter entries of the correction stage: the preamp gain first,
/// then one biquad entry per band, in parse order, under the generated
/// names.
pub fn correction_entries(correction: CorrectionFilterSet) -> (r: Vec<NamedFilter>)
    requires
        correction.wf(),
        correction.eq_bands@.len() < usize::MAX,
    ensures
        r@.len() == correction.eq_bands@.len() + 1,
        filter_names(r@) == correction_names(correction.eq_bands@.len()),
        r@[0].filter matches Filter::Gain { parameters } && parameters.gain == correction.gain
            && !parameters.inverted && !parameters.mute,
        forall|k: int|
            0 <= k < correction.eq_bands@.len() ==> (#[trigger] r@[k + 1]).filter == (
            Filter::Biquad { parameters: correction.eq_bands@[k] }),
        forall|j: int|
            0 <= j < r@.len() ==> plain_name((#[trigger] r@[j]).name@) && filter_wf(r@[j].filter),
{
    proof {
        lemma_correction_names();
    }
    let ghost bands0 = correction.eq_bands@;
    let n: usize = correction.eq_bands.len();
    let mut out: Vec<NamedFilter> = Vec::new();
    out.push(
        NamedFilter {
            name: preamp_name_vec(),
            filter: Filter::Gain { parameters: GainParameters::new(correction.gain) },
        },
    );
    let mut bands = correction.eq_bands;
    let mut k: usize = 0;
    #[verifier::loop_isolation(false)]
    while k < n
        invariant
            0 <= k <= n,
            bands@ =~= bands0.skip(k as int),
            out@.len() == k + 1,
            filter_names(out@) =~= correction_names(bands0.len()).take(k + 1),
            out@[0].filter matches Filter::Gain { parameters } && parameters.gain
                == correction.gain && !parameters.inverted && !parameters.mute,
            forall|j: int|
                0 <= j < k ==> (#[trigger] out@[j + 1]).filter == (Filter::Biquad {
                    parameters: bands0[j],
                }),
            forall|j: int|
                0 <= j < out@.len() ==> plain_name((#[trigger] out@[j]).name@) && filter_wf(
                    out@[j].filter,
                ),
        decreases n - k,
    {
        let band = bands.remove(0);
        proof {
            assert(bands0.skip(k as int)[0] == bands0[k as int]);
            assert(band == bands0[k as int]);
            assert(bands@ =~= bands0.skip(k + 1));
        }
        out.push(NamedFilter { name: band_name_vec(k), filter: Filter::Biquad { parameters: band } });
        proof {
            assert(filter_names(out@) =~= correction_names(bands0.len()).take(k + 2)) by {
                assert(correction_names(bands0.len())[k + 1] == band_name(k as nat));
                assert(filter_names(out@)[k + 1] == band_name(k as nat));
                assert forall|j: int| 0 <= j < k + 2 implies filter_names(out@)[j]
                    == correction_names(bands0.len()).take(k + 2)[j] by {
                    if j < k + 1 {
                        assert(filter_names(out@)[j] == filter_names(out@.drop_last())[j]);
                    }
                }
            }
        }
        k += 1;
    }
    proof {
        assert(correction_names(bands0.len()).take(n + 1) =~= correction_names(bands0.len()));
    }
    out
}

/// The mixer entries a preset choice contributes.
pub open spec fn preset_mixers(p: Option<crate::crossfeed::PresetBundle>) -> Seq<NamedMixer> {
    match p {
        Option::Some(b) => b.mixers@,
        Option::None => Seq::empty(),
    }
}

/// The filter entries a preset choice contributes.
pub open spec fn preset_filters(p: Option<crate::crossfeed::PresetBundle>) -> Seq<NamedFilter> {
    match p {
        Option::Some(b) => b.filters@,
        Option::None => Seq::empty(),
    }
}

/// The pipeline steps a preset choice contributes.
pub open spec fn preset_pipeline(p: Option<crate::crossfeed::PresetBundle>) -> Seq<PipelineStep> {
    match p {
        Option::Some(b) => b.pipeline@,
        Option::None => Seq::empty(),
    }
}

/// All filter names the build will claim, in insertion order: the
/// preset's first, then the correction stage's.
pub open spec fn build_filter_names(
    p: Option<crate::crossfeed::PresetBundle>,
    n: nat,
) -> Seq<Seq<u8>> {
    filter_names(preset_filters(p)) + correction_names(n)
}


/// The name a collision error carries.
pub open spec fn name_of_err(e: BuildError) -> Seq<u8> {
    match e {
        BuildError::NameCollision { name } => name@,
    }
}

/// Membership in a concatenation of name sequences.
pub proof fn lemma_contains_concat(a: Seq<Seq<u8>>, b: Seq<Seq<u8>>, m: Seq<u8>)
    ensures
        contains_name(a + b, m) <==> contains_name(a, m) || contains_name(b, m),
{
    if contains_name(a + b, m) {
        let i = choose|i: int| 0 <= i < (a + b).len() && (#[trigger] (a + b)[i]) == m;
        if i < a.len() {
            assert(a[i] == m);
        } else {
            assert(b[i - a.len()] == m);
        }
    }
    if contains_name(a, m) {
        let i = choose|i: int| 0 <= i < a.len() && (#[trigger] a[i]) == m;
        assert((a + b)[i] == m);
    }
    if contains_name(b, m) {
        let i = choose|i: int| 0 <= i < b.len() && (#[trigger] b[i]) == m;
        assert((a + b)[a.len() + i] == m);
    }
}

/// The generated correction names, as printable values.
pub fn correction_name_list(n: usize) -> (r: Vec<Vec<u8>>)
    requires
        n < usize::MAX,
    ensures
        crate::text::views_of(r@) == correction_names(n as nat),
{
    let mut out: Vec<Vec<u8>> = Vec::new();
    out.push(preamp_name_vec());
    proof {
        assert(crate::text::views_of(out@) =~= correction_names(n as nat).take(1));
    }
    let mut k: usize = 0;
    #[verifier::loop_isolation(false)]
    while k < n
        invariant
            0 <= k <= n,
            out@.len() == k + 1,
            crate::text::views_of(out@) =~= correction_names(n as nat).take(k + 1),
        decreases n - k,
    {
        out.push(band_name_vec(k));
        proof {
            assert(crate::text::views_of(out@) =~= correction_names(n as nat).take(k + 2)) by {
                assert(correction_names(n as nat)[k + 1] == band_name(k as nat));
                assert forall|j: int| 0 <= j < k + 2 implies crate::text::views_of(out@)[j]
                    == correction_names(n as nat).take(k + 2)[j] by {
                    if j < k + 1 {
                        assert(crate::text::views_of(out@)[j] == crate::text::views_of(
                            out@.drop_last(),
                        )[j]);
                    }
                }
            }
        }
        k += 1;
    }
    proof {
        assert(correction_names(n as nat).take(n + 1) =~= correction_names(n as nat));
    }
    out
}

/// Everything `build` promises of a successful result: well-formedness,
/// the pipeline layout, exact name membership, and the value stored
/// under every name.
pub open spec fn build_ok_post(
    correction: CorrectionFilterSet,
    preset: Option<crate::crossfeed::PresetBundle>,
    c: Configuration,
) -> bool     {
            let pm = mixer_names(preset_mixers(preset));
            let fnames = build_filter_names(preset, correction.eq_bands@.len());
            let ppipe = preset_pipeline(preset);
            let cnames = correction_names(correction.eq_bands@.len());
            &&& c.wf()
            &&& c.pipeline@.len() == ppipe.len() + 2
            &&& forall|i: int| 0 <= i < ppipe.len() ==> c.pipeline@[i] == ppipe[i]
            &&& (c.pipeline@[ppipe.len() as int] matches PipelineStep::Filter { channel, names }
                && channel == 0 && crate::text::views_of(names@) == cnames)
            &&& (c.pipeline@[ppipe.len() as int + 1] matches PipelineStep::Filter {
                channel,
                names,
            } && channel == 1 && crate::text::views_of(names@) == cnames)
            &&& forall|m: Seq<u8>|
                contains_name(filter_names(c.filters@), m) <==> contains_name(fnames, m)
            &&& forall|m: Seq<u8>|
                contains_name(mixer_names(c.mixers@), m) <==> contains_name(pm, m)
            &&& (lookup_filter(c.filters@, preamp_name()) matches Option::Some(f) && f == (
            Filter::Gain {
                parameters: GainParameters {
                    gain: correction.gain,
                    inverted: false,
                    mute: false,
                },
            }))
            &&& forall|k: int|
                0 <= k < correction.eq_bands@.len() ==> lookup_filter(
                    c.filters@,
                    #[trigger] band_name(k as nat),
                ) == Option::Some(
                    Filter::Biquad { parameters: correction.eq_bands@[k] },
                )
            &&& forall|j: int|
                0 <= j < preset_filters(preset).len() ==> lookup_filter(
                    c.filters@,
                    (#[trigger] preset_filters(preset)[j]).name@,
                ) == Option::Some(preset_filters(preset)[j].filter)
            &&& forall|j: int|
                0 <= j < preset_mixers(preset).len() ==> lookup_mixer(
                    c.mixers@,
                    (#[trigger] preset_mixers(preset)[j]).name@,
                ) == Option::Some(preset_mixers(preset)[j].mixer)
            &&& (match preset {
                Option::Some(b) => b.refs_valid(),
                Option::None => true,
            }) ==> c.refs_valid()
    }

/// Merges an optional preset bundle with the parsed correction filters
/// into one configuration: the preset's mixers, filters and pipeline
/// come first, then one gain stage and one filter per band under the
/// generated names, and finally one filter step per output channel
/// carrying the whole correction chain in parse order.  Fails exactly
/// when two stages would share a name, and reports the first such name.
pub fn build(correction: CorrectionFilterSet, preset: Option<crate::crossfeed::PresetBundle>) -> (r:
    Result<Configuration, BuildError>)
    requires
        correction.wf(),
        correction.eq_bands@.len() < usize::MAX,
        preset matches Some(b) ==> b.wf(),
    ensures
        r is Ok <==> (!has_dup(mixer_names(preset_mixers(preset))) && !has_dup(
            build_filter_names(preset, correction.eq_bands@.len()),
        )),
        r matches Ok(c) ==> build_ok_post(correction, preset, c),
        r matches Err(e) ==> match e {
            BuildError::NameCollision { name } => {
                let pm = mixer_names(preset_mixers(preset));
                let fnames = build_filter_names(preset, correction.eq_bands@.len());
                ||| exists|j: int|
                    {
                        &&& 0 <= j < pm.len()
                        &&& dup_at(pm, j)
                        &&& forall|t: int| 0 <= t < j ==> !dup_at(pm, t)
                        &&& name@ == pm[j]
                    }
                ||| (!has_dup(pm) && exists|j: int|
                    {
                        &&& 0 <= j < fnames.len()
                        &&& dup_at(fnames, j)
                        &&& forall|t: int| 0 <= t < j ==> !dup_at(fnames, t)
                        &&& name@ == fnames[j]
                    })
            },
        },
{
    let ghost preset0 = preset;
    let ghost nbands = correction.eq_bands@.len();
    let ghost pm = mixer_names(preset_mixers(preset0));
    let ghost bfn = filter_names(preset_filters(preset0));
    let ghost cn = correction_names(nbands);
    let ghost fnames = build_filter_names(preset0, nbands);
    let ghost gain0 = correction.gain;
    let ghost bands0 = correction.eq_bands@;
    proof {
        lemma_correction_names();
        lemma_correction_names_distinct(nbands);
        assert(fnames =~= bfn + cn);
    }
    let mut c = Configuration::new();
    let (bmix, bfilt, bpipe): (Vec<NamedMixer>, Vec<NamedFilter>, Vec<PipelineStep>) =
        match preset {
        Some(b) => (b.mixers, b.filters, b.pipeline),
        None => (Vec::new(), Vec::new(), Vec::new()),
    };
    proof {
        assert(bmix@ =~= preset_mixers(preset0));
        assert(bfilt@ =~= preset_filters(preset0));
        assert(bpipe@ =~= preset_pipeline(preset0));
        assert(mixer_names(Seq::<NamedMixer>::empty()).len() == 0);
        assert(filter_names(Seq::<NamedFilter>::empty()).len() == 0);
    }
    let ghost cempty = c;
    match c.insert_all_mixers(bmix) {
        Err(e) => {
            proof {
                let j = choose|j: int|
                    {
                        &&& 0 <= j < pm.len()
                        &&& !fresh_at(mixer_names(cempty.mixers@), pm, j)
                        &&& forall|i: int|
                            0 <= i < j ==> fresh_at(mixer_names(cempty.mixers@), pm, i)
                        &&& (e matches BuildError::NameCollision { name } && name@ == pm[j])
                    };
                assert(dup_at(pm, j)) by {
                    assert(!contains_name(mixer_names(cempty.mixers@), pm[j]));
                    let i = choose|i: int| 0 <= i < j && pm[i] == pm[j];
                    assert(0 <= i < j && pm[i] == pm[j]);
                }
                assert forall|t: int| 0 <= t < j implies !dup_at(pm, t) by {
                    assert(fresh_at(mixer_names(cempty.mixers@), pm, t));
                    if dup_at(pm, t) {
                        let i = choose|i: int| 0 <= i < t && pm[i] == pm[t];
                    }
                }
            }
            return Err(e);
        },
        Ok(()) => {},
    }
    proof {
        assert(!has_dup(pm)) by {
            if has_dup(pm) {
                let j = choose|j: int| 0 <= j < pm.len() && dup_at(pm, j);
                assert(fresh_at(mixer_names(cempty.mixers@), pm, j));
                let i = choose|i: int| 0 <= i < j && pm[i] == pm[j];
            }
        }
    }
    let ghost cmix = c;
    match c.insert_all_filters(bfilt) {
        Err(e) => {
            proof {
                let j = choose|j: int|
                    {
                        &&& 0 <= j < bfn.len()
                        &&& !fresh_at(filter_names(cmix.filters@), bfn, j)
                        &&& forall|i: int|
                            0 <= i < j ==> fresh_at(filter_names(cmix.filters@), bfn, i)
                        &&& (e matches BuildError::NameCollision { name } && name@ == bfn[j])
                    };
                assert(cmix.filters@ == cempty.filters@);
                assert(dup_at(fnames, j)) by {
                    assert(!contains_name(filter_names(cmix.filters@), bfn[j]));
                    let i = choose|i: int| 0 <= i < j && bfn[i] == bfn[j];
                    assert(fnames[i] == bfn[i]);
                    assert(fnames[j] == bfn[j]);
                }
                assert(name_of_err(e) == fnames[j]) by {
                    assert(fnames[j] == bfn[j]);
                }
                assert forall|t: int| 0 <= t < j implies !dup_at(fnames, t) by {
                    assert(fresh_at(filter_names(cmix.filters@), bfn, t));
                    if dup_at(fnames, t) {
                        let i = choose|i: int| 0 <= i < t && fnames[i] == fnames[t];
                        assert(fnames[i] == bfn[i]);
                        assert(fnames[t] == bfn[t]);
                    }
                }
            }
            return Err(e);
        },
        Ok(()) => {},
    }
    proof {
        assert forall|j: int| 0 <= j < bfn.len() implies !dup_at(fnames, j) by {
            assert(fresh_at(filter_names(cmix.filters@), bfn, j));
            if dup_at(fnames, j) {
                let i = choose|i: int| 0 <= i < j && fnames[i] == fnames[j];
                assert(fnames[i] == bfn[i]);
                assert(fnames[j] == bfn[j]);
            }
        }
    }
    let ghost cbf = c;
    let nb: usize = correction.eq_bands.len();
    let centries = correction_entries(correction);
    proof {
        assert(filter_names(centries@) == cn);
    }
    match c.insert_all_filters(centries) {
        Err(e) => {
            proof {
                let j = choose|j: int|
                    {
                        &&& 0 <= j < cn.len()
                        &&& !fresh_at(filter_names(cbf.filters@), cn, j)
                        &&& forall|i: int|
                            0 <= i < j ==> fresh_at(filter_names(cbf.filters@), cn, i)
                        &&& (e matches BuildError::NameCollision { name } && name@ == cn[j])
                    };
                let bl = bfn.len() as int;
                assert(dup_at(fnames, bl + j)) by {
                    assert(fnames[bl + j] == cn[j]);
                    if contains_name(filter_names(cbf.filters@), cn[j]) {
                        assert(contains_name(bfn, cn[j]));
                        let i = choose|i: int| 0 <= i < bfn.len() && (#[trigger] bfn[i]) == cn[j];
                        assert(fnames[i] == bfn[i]);
                    } else {
                        let i = choose|i: int| 0 <= i < j && cn[i] == cn[j];
                        assert(fnames[bl + i] == cn[i]);
                    }
                }
                assert(name_of_err(e) == fnames[bl + j]) by {
                    assert(fnames[bl + j] == cn[j]);
                }
                assert forall|t: int| 0 <= t < bl + j implies !dup_at(fnames, t) by {
                    if t < bl {
                    } else {
                        assert(fresh_at(filter_names(cbf.filters@), cn, t - bl));
                        if dup_at(fnames, t) {
                            let i = choose|i: int| 0 <= i < t && fnames[i] == fnames[t];
                            assert(fnames[t] == cn[t - bl]);
                            if i < bl {
                                assert(fnames[i] == bfn[i]);
                                assert(contains_name(bfn, cn[t - bl]));
                                assert(contains_name(filter_names(cbf.filters@), cn[t - bl]));
                            } else {
                                assert(fnames[i] == cn[i - bl]);
                            }
                        }
                    }
                }
            }
            return Err(e);
        },
        Ok(()) => {},
    }
    proof {
        // no duplicate remains possible anywhere in the combined list
        assert(!has_dup(fnames)) by {
            if has_dup(fnames) {
                let j = choose|j: int| 0 <= j < fnames.len() && dup_at(fnames, j);
                let bl = bfn.len() as int;
                if j < bl {
                } else {
                    assert(fresh_at(filter_names(cbf.filters@), cn, j - bl));
                    let i = choose|i: int| 0 <= i < j && fnames[i] == fnames[j];
                    assert(fnames[j] == cn[j - bl]);
                    if i < bl {
                        assert(fnames[i] == bfn[i]);
                        assert(contains_name(bfn, cn[j - bl]));
                        assert(contains_name(filter_names(cbf.filters@), cn[j - bl]));
                    } else {
                        assert(fnames[i] == cn[i - bl]);
                    }
                }
            }
        }
    }
    let ghost cdone = c;
    let mut bpipe = bpipe;
    c.pipeline.append(&mut bpipe);
    let names0 = correction_name_list(nb);
    let names1 = correction_name_list(nb);
    c.pipeline.push(PipelineStep::Filter { channel: 0, names: names0 });
    c.pipeline.push(PipelineStep::Filter { channel: 1, names: names1 });
    proof {
        let ppipe = preset_pipeline(preset0);
        assert(c.pipeline@.len() == ppipe.len() + 2);
        assert forall|i: int| 0 <= i < ppipe.len() implies c.pipeline@[i] == ppipe[i] by {}
        assert(c.filters@ == cdone.filters@);
        assert(c.mixers@ == cdone.mixers@);
        assert(c.wf());
        // membership in the result equals membership in the claimed name lists
        assert forall|m: Seq<u8>|
            contains_name(filter_names(c.filters@), m) <==> contains_name(fnames, m) by {
            lemma_contains_concat(bfn, cn, m);
            assert(contains_name(filter_names(cdone.filters@), m) <==> (contains_name(
                filter_names(cbf.filters@),
                m,
            ) || contains_name(cn, m)));
            assert(contains_name(filter_names(cbf.filters@), m) <==> (contains_name(
                filter_names(cmix.filters@),
                m,
            ) || contains_name(bfn, m)));
            assert(contains_name(filter_names(cmix.filters@), m) <==> false) by {
                if contains_name(filter_names(cmix.filters@), m) {
                    let t = choose|t: int|
                        0 <= t < filter_names(cmix.filters@).len() && (#[trigger] filter_names(
                            cmix.filters@,
                        )[t]) == m;
                }
            }
        }
        assert forall|m: Seq<u8>|
            contains_name(mixer_names(c.mixers@), m) <==> contains_name(pm, m) by {
            assert(contains_name(mixer_names(cempty.mixers@), m) <==> false) by {
                if contains_name(mixer_names(cempty.mixers@), m) {
                    let t = choose|t: int|
                        0 <= t < mixer_names(cempty.mixers@).len() && (#[trigger] mixer_names(
                            cempty.mixers@,
                        )[t]) == m;
                }
            }
        }
        // the correction stage's values are found under their names
        assert(cn[0] == preamp_name());
        assert(lookup_filter(c.filters@, preamp_name()) == Option::Some(
            Filter::Gain {
                parameters: GainParameters { gain: gain0, inverted: false, mute: false },
            },
        )) by {
            assert(filter_names(centries@)[0] == centries@[0].name@);
            assert(centries@[0].name@ == preamp_name());
            assert(lookup_filter(c.filters@, centries@[0].name@) == Option::Some(
                centries@[0].filter,
            ));
            assert(centries@[0].filter == (Filter::Gain {
                parameters: GainParameters { gain: gain0, inverted: false, mute: false },
            }));
        }
        assert forall|k: int| 0 <= k < nbands implies lookup_filter(
            c.filters@,
            #[trigger] band_name(k as nat),
        ) == Option::Some(Filter::Biquad { parameters: bands0[k] }) by {
            assert(filter_names(centries@)[k + 1] == centries@[k + 1].name@);
            assert(cn[k + 1] == band_name(k as nat));
            assert(centries@[k + 1].name@ == band_name(k as nat));
            assert(lookup_filter(c.filters@, centries@[k + 1].name@) == Option::Some(
                centries@[k + 1].filter,
            ));
            assert(centries@[k + 1].filter == (Filter::Biquad { parameters: bands0[k] }));
        }
        // the preset's own entries are kept untouched
        assert forall|j: int| 0 <= j < preset_filters(preset0).len() implies lookup_filter(
            c.filters@,
            (#[trigger] preset_filters(preset0)[j]).name@,
        ) == Option::Some(preset_filters(preset0)[j].filter) by {
            let m = preset_filters(preset0)[j].name@;
            assert(bfn[j] == m);
            assert(lookup_filter(cbf.filters@, m) == Option::Some(
                preset_filters(preset0)[j].filter,
            ));
            assert(!contains_name(cn, m)) by {
                if contains_name(cn, m) {
                    let i = choose|i: int| 0 <= i < cn.len() && (#[trigger] cn[i]) == m;
                    assert(dup_at(fnames, bfn.len() + i)) by {
                        assert(fnames[j] == bfn[j]);
                        assert(fnames[bfn.len() + i] == cn[i]);
                    }
                }
            }
            assert(lookup_filter(c.filters@, m) == lookup_filter(cbf.filters@, m));
        }
        assert forall|j: int| 0 <= j < preset_mixers(preset0).len() implies lookup_mixer(
            c.mixers@,
            (#[trigger] preset_mixers(preset0)[j]).name@,
        ) == Option::Some(preset_mixers(preset0)[j].mixer) by {}
        // pipeline references stay resolvable
        if (match preset0 {
            Option::Some(b) => b.refs_valid(),
            Option::None => true,
        }) {
            assert(c.refs_valid()) by {
                let ppipe2 = preset_pipeline(preset0);
                assert forall|i: int| 0 <= i < c.pipeline@.len() implies match #[trigger] c.pipeline@[i] {
                    PipelineStep::Mixer { name } => contains_name(mixer_names(c.mixers@), name@),
                    PipelineStep::Filter { channel, names } => forall|j: int|
                        0 <= j < names@.len() ==> contains_name(
                            filter_names(c.filters@),
                            (#[trigger] names@[j])@,
                        ),
                } by {
                    if i < ppipe2.len() {
                        match preset0 {
                            Option::Some(b) => {
                                assert(c.pipeline@[i] == b.pipeline@[i]);
                                match c.pipeline@[i] {
                                    PipelineStep::Mixer { name } => {
                                        assert(contains_name(mixer_names(b.mixers@), name@));
                                        assert(mixer_names(preset_mixers(preset0)) == pm);
                                    },
                                    PipelineStep::Filter { channel, names } => {
                                        assert forall|j: int|
                                            0 <= j < names@.len() implies contains_name(
                                            filter_names(c.filters@),
                                            (#[trigger] names@[j])@,
                                        ) by {
                                            assert(contains_name(
                                                filter_names(b.filters@),
                                                names@[j]@,
                                            ));
                                            lemma_contains_concat(bfn, cn, names@[j]@);
                                        }
                                    },
                                }
                            },
                            Option::None => {},
                        }
                    } else {
                        match c.pipeline@[i] {
                            PipelineStep::Mixer { name } => {
                                assert(false);
                            },
                            PipelineStep::Filter { channel, names } => {
                                assert(crate::text::views_of(names@) == cn);
                                assert forall|j: int| 0 <= j < names@.len() implies contains_name(
                                    filter_names(c.filters@),
                                    (#[trigger] names@[j])@,
                                ) by {
                                    assert(crate::text::views_of(names@)[j] == names@[j]@);
                                    assert(contains_name(cn, cn[j]));
                                    lemma_contains_concat(bfn, cn, cn[j]);
                                }
                            },
                        }
                    }
                }
            }
        }
    }
    Ok(c)
}


/// Builds the output configuration for a crossfeed choice from the
/// catalog.  Catalog presets never collide with the correction names,
/// so this always succeeds: the preset's stages come first and the
/// correction chain is appended as one filter step per output channel.
pub fn build_configuration(eq_data: CorrectionFilterSet, crossfeed: &Crossfeed) -> (r: Result<
    Configuration,
    BuildError,
>)
    requires
        eq_data.wf(),
        eq_data.eq_bands@.len() < usize::MAX,
    ensures
        r is Ok,
        r matches Ok(c) ==> {
            let cnames = correction_names(eq_data.eq_bands@.len());
            let steps = crate::crossfeed::crossfeed_step_count(*crossfeed);
            &&& c.wf()
            &&& c.refs_valid()
            &&& c.pipeline@.len() == steps + 2
            &&& (c.pipeline@[steps] matches PipelineStep::Filter { channel, names } && channel == 0
                && crate::text::views_of(names@) == cnames)
            &&& (c.pipeline@[steps + 1] matches PipelineStep::Filter { channel, names } && channel
                == 1 && crate::text::views_of(names@) == cnames)
            &&& forall|m: Seq<u8>|
                contains_name(filter_names(c.filters@), m) <==> contains_name(
                    crate::crossfeed::crossfeed_filter_names(*crossfeed) + cnames,
                    m,
                )
            &&& forall|m: Seq<u8>|
                contains_name(mixer_names(c.mixers@), m) <==> contains_name(
                    crate::crossfeed::crossfeed_mixer_names(*crossfeed),
                    m,
                )
            &&& (lookup_filter(c.filters@, preamp_name()) matches Option::Some(f) && f == (
            Filter::Gain {
                parameters: GainParameters {
                    gain: eq_data.gain,
                    inverted: false,
                    mute: false,
                },
            }))
            &&& forall|k: int|
                0 <= k < eq_data.eq_bands@.len() ==> lookup_filter(
                    c.filters@,
                    #[trigger] band_name(k as nat),
                ) == Option::Some(
                    Filter::Biquad { parameters: eq_data.eq_bands@[k] },
                )
        },
{
    let ghost n0 = eq_data.eq_bands@.len();
    let ghost cf0 = *crossfeed;
    let bundle = crate::crossfeed::crossfeed_bundle(crossfeed);
    let ghost bundle0 = bundle;
    proof {
        crate::crossfeed::lemma_catalog_names_fresh(cf0, n0);
        assert(mixer_names(preset_mixers(bundle0)) == crate::crossfeed::crossfeed_mixer_names(
            cf0,
        )) by {
            match bundle0 {
                Option::Some(b) => {},
                Option::None => {
                    assert(mixer_names(Seq::<NamedMixer>::empty())
                        =~= Seq::<Seq<u8>>::empty());
                    assert(crate::crossfeed::crossfeed_mixer_names(cf0)
                        =~= Seq::<Seq<u8>>::empty());
                },
            }
        }
        assert(filter_names(preset_filters(bundle0)) == crate::crossfeed::crossfeed_filter_names(
            cf0,
        )) by {
            match bundle0 {
                Option::Some(b) => {},
                Option::None => {
                    assert(filter_names(Seq::<NamedFilter>::empty())
                        =~= Seq::<Seq<u8>>::empty());
                    assert(crate::crossfeed::crossfeed_filter_names(cf0)
                        =~= Seq::<Seq<u8>>::empty());
                },
            }
        }
        assert(build_filter_names(bundle0, n0) == crate::crossfeed::crossfeed_filter_names(cf0)
            + correction_names(n0));
        assert(preset_pipeline(bundle0).len() == crate::crossfeed::crossfeed_step_count(cf0)) by {
            match bundle0 {
                Option::Some(b) => {},
                Option::None => {},
            }
        }
    }
    let r = build(eq_data, bundle);
    proof {
        if r is Err {
            assert(false);
        }
    }
    r
}


/// Two sorted name sequences with the same membership are identical.
pub proof fn lemma_sorted_names_unique(ns1: Seq<Seq<u8>>, ns2: Seq<Seq<u8>>)
    requires
        sorted_unique(ns1),
        sorted_unique(ns2),
        forall|m: Seq<u8>| contains_name(ns1, m) <==> contains_name(ns2, m),
    ensures
        ns1 == ns2,
    decreases ns1.len(),
{
    if ns1.len() == 0 {
        if ns2.len() > 0 {
            assert(contains_name(ns2, ns2[0]));
            let i = choose|i: int| 0 <= i < ns1.len() && ns1[i] == ns2[0];
        }
        assert(ns1 =~= ns2);
    } else {
        assert(contains_name(ns1, ns1[0]));
        let j = choose|j: int| 0 <= j < ns2.len() && ns2[j] == ns1[0];
        if j > 0 {
            assert(lex_lt(ns2[0], ns2[j]));
            assert(contains_name(ns2, ns2[0]));
            let i = choose|i: int| 0 <= i < ns1.len() && ns1[i] == ns2[0];
            if i == 0 {
                crate::text::lemma_lex_lt_total(ns2[0], ns1[0]);
            } else {
                assert(lex_lt(ns1[0], ns1[i]));
                crate::text::lemma_lex_lt_trans(ns1[0], ns1[i], ns2[j]);
                crate::text::lemma_lex_lt_total(ns1[0], ns1[0]);
            }
        }
        assert(ns1[0] == ns2[0]);
        let t1 = ns1.drop_first();
        let t2 = ns2.drop_first();
        assert(sorted_unique(t1)) by {
            assert forall|a: int, b: int| 0 <= a < b < t1.len() implies lex_lt(t1[a], t1[b]) by {
                assert(t1[a] == ns1[a + 1]);
                assert(t1[b] == ns1[b + 1]);
            }
        }
        assert(sorted_unique(t2)) by {
            assert forall|a: int, b: int| 0 <= a < b < t2.len() implies lex_lt(t2[a], t2[b]) by {
                assert(t2[a] == ns2[a + 1]);
                assert(t2[b] == ns2[b + 1]);
            }
        }
        assert forall|m: Seq<u8>| contains_name(t1, m) <==> contains_name(t2, m) by {
            if contains_name(t1, m) {
                let a = choose|a: int| 0 <= a < t1.len() && t1[a] == m;
                assert(ns1[a + 1] == m);
                assert(contains_name(ns1, m));
                assert(lex_lt(ns1[0], ns1[a + 1]));
                crate::text::lemma_lex_lt_total(ns1[0], m);
                let b = choose|b: int| 0 <= b < ns2.len() && ns2[b] == m;
                assert(b > 0);
                assert(t2[b - 1] == m);
            }
            if contains_name(t2, m) {
                let a = choose|a: int| 0 <= a < t2.len() && t2[a] == m;
                assert(ns2[a + 1] == m);
                assert(contains_name(ns2, m));
                assert(lex_lt(ns2[0], ns2[a + 1]));
                crate::text::lemma_lex_lt_total(ns2[0], m);
                let b = choose|b: int| 0 <= b < ns1.len() && ns1[b] == m;
                assert(b > 0);
                assert(t1[b - 1] == m);
            }
        }
        lemma_sorted_names_unique(t1, t2);
        assert(ns1 =~= ns2) by {
            assert forall|i: int| 0 <= i < ns1.len() implies ns1[i] == ns2[i] by {
                if i > 0 {
                    assert(ns1[i] == t1[i - 1]);
                    assert(ns2[i] == t2[i - 1]);
                }
            }
        }
    }
}

/// In a sorted map the lookup of an entry's own name answers with that
/// entry.
pub proof fn lemma_lookup_at_filter(es: Seq<NamedFilter>, i: int)
    requires
        sorted_unique(filter_names(es)),
        0 <= i < es.len(),
    ensures
        lookup_filter(es, es[i].name@) == Option::Some(es[i].filter),
    decreases i,
{
    if i == 0 {
        assert(lookup_filter(es, es[0].name@) == Option::Some(es[0].filter));
    } else {
        assert(lex_lt(filter_names(es)[0], filter_names(es)[i]));
        assert(filter_names(es)[0] == es[0].name@);
        assert(filter_names(es)[i] == es[i].name@);
        crate::text::lemma_lex_lt_total(es[0].name@, es[i].name@);
        assert(es[0].name@ != es[i].name@);
        let t = es.drop_first();
        assert(sorted_unique(filter_names(t))) by {
            assert forall|a: int, b: int|
                0 <= a < b < filter_names(t).len() implies lex_lt(
                filter_names(t)[a],
                filter_names(t)[b],
            ) by {
                assert(filter_names(t)[a] == filter_names(es)[a + 1]);
                assert(filter_names(t)[b] == filter_names(es)[b + 1]);
            }
        }
        assert(t[i - 1] == es[i]);
        lemma_lookup_at_filter(t, i - 1);
        assert(lookup_filter(es, es[i].name@) == lookup_filter(t, es[i].name@));
    }
}

/// The same, for mixers.
pub proof fn lemma_lookup_at_mixer(es: Seq<NamedMixer>, i: int)
    requires
        sorted_unique(mixer_names(es)),
        0 <= i < es.len(),
    ensures
        lookup_mixer(es, es[i].name@) == Option::Some(es[i].mixer),
    decreases i,
{
    if i == 0 {
        assert(lookup_mixer(es, es[0].name@) == Option::Some(es[0].mixer));
    } else {
        assert(lex_lt(mixer_names(es)[0], mixer_names(es)[i]));
        assert(mixer_names(es)[0] == es[0].name@);
        assert(mixer_names(es)[i] == es[i].name@);
        crate::text::lemma_lex_lt_total(es[0].name@, es[i].name@);
        assert(es[0].name@ != es[i].name@);
        let t = es.drop_first();
        assert(sorted_unique(mixer_names(t))) by {
            assert forall|a: int, b: int|
                0 <= a < b < mixer_names(t).len() implies lex_lt(
                mixer_names(t)[a],
                mixer_names(t)[b],
            ) by {
                assert(mixer_names(t)[a] == mixer_names(es)[a + 1]);
                assert(mixer_names(t)[b] == mixer_names(es)[b + 1]);
            }
        }
        assert(t[i - 1] == es[i]);
        lemma_lookup_at_mixer(t, i - 1);
        assert(lookup_mixer(es, es[i].name@) == lookup_mixer(t, es[i].name@));
    }
}

/// Two pipeline steps that route the same way: the same stage kind with
/// the same channel and the same referenced names.
pub open spec fn step_equiv(a: PipelineStep, b: PipelineStep) -> bool {
    match (a, b) {
        (PipelineStep::Mixer { name: n1 }, PipelineStep::Mixer { name: n2 }) => n1@ == n2@,
        (
            PipelineStep::Filter { channel: ch1, names: ns1 },
            PipelineStep::Filter { channel: ch2, names: ns2 },
        ) => ch1 == ch2 && crate::text::views_of(ns1@) == crate::text::views_of(ns2@),
        _ => false,
    }
}

/// Two configurations that agree on everything observable: the same
/// sorted name maps with equal stored values, and pipelines that route
/// identically.
pub open spec fn configs_equivalent(c1: Configuration, c2: Configuration) -> bool {
    &&& filter_names(c1.filters@) == filter_names(c2.filters@)
    &&& c1.filters@.len() == c2.filters@.len()
    &&& forall|i: int|
        0 <= i < c1.filters@.len() ==> (#[trigger] c1.filters@[i]).filter == c2.filters@[i].filter
    &&& mixer_names(c1.mixers@) == mixer_names(c2.mixers@)
    &&& c1.mixers@.len() == c2.mixers@.len()
    &&& forall|i: int|
        0 <= i < c1.mixers@.len() ==> (#[trigger] c1.mixers@[i]).mixer == c2.mixers@[i].mixer
    &&& c1.pipeline@.len() == c2.pipeline@.len()
    &&& forall|i: int|
        0 <= i < c1.pipeline@.len() ==> step_equiv(
            #[trigger] c1.pipeline@[i],
            c2.pipeline@[i],
        )
}

/// The builder is deterministic: two successful builds from the same
/// correction set and preset choice are equivalent configurations —
/// structural equality, independent of any insertion or iteration
/// order.
pub proof fn lemma_build_deterministic(
    correction: CorrectionFilterSet,
    preset: Option<crate::crossfeed::PresetBundle>,
    c1: Configuration,
    c2: Configuration,
)
    requires
        build_ok_post(correction, preset, c1),
        build_ok_post(correction, preset, c2),
    ensures
        configs_equivalent(c1, c2),
{
    let nb = correction.eq_bands@.len();
    let bfn = filter_names(preset_filters(preset));
    let cn = correction_names(nb);
    let fnames = build_filter_names(preset, nb);
    let pm = mixer_names(preset_mixers(preset));
    let ppipe = preset_pipeline(preset);
    lemma_correction_names();
    assert forall|m: Seq<u8>|
        contains_name(filter_names(c1.filters@), m) <==> contains_name(
        filter_names(c2.filters@),
        m,
    ) by {
        assert(contains_name(filter_names(c1.filters@), m) <==> contains_name(fnames, m));
        assert(contains_name(filter_names(c2.filters@), m) <==> contains_name(fnames, m));
    }
    lemma_sorted_names_unique(filter_names(c1.filters@), filter_names(c2.filters@));
    assert(c1.filters@.len() == c2.filters@.len()) by {
        assert(filter_names(c1.filters@).len() == c1.filters@.len());
        assert(filter_names(c2.filters@).len() == c2.filters@.len());
    }
    assert forall|m: Seq<u8>|
        contains_name(mixer_names(c1.mixers@), m) <==> contains_name(
        mixer_names(c2.mixers@),
        m,
    ) by {
        assert(contains_name(mixer_names(c1.mixers@), m) <==> contains_name(pm, m));
        assert(contains_name(mixer_names(c2.mixers@), m) <==> contains_name(pm, m));
    }
    lemma_sorted_names_unique(mixer_names(c1.mixers@), mixer_names(c2.mixers@));
    assert(c1.mixers@.len() == c2.mixers@.len()) by {
        assert(mixer_names(c1.mixers@).len() == c1.mixers@.len());
        assert(mixer_names(c2.mixers@).len() == c2.mixers@.len());
    }
    assert forall|i: int|
        0 <= i < c1.filters@.len() implies (#[trigger] c1.filters@[i]).filter
        == c2.filters@[i].filter by {
        let n = c1.filters@[i].name@;
        assert(filter_names(c1.filters@)[i] == n);
        assert(filter_names(c2.filters@)[i] == c2.filters@[i].name@);
        assert(c2.filters@[i].name@ == n);
        lemma_lookup_at_filter(c1.filters@, i);
        lemma_lookup_at_filter(c2.filters@, i);
        assert(contains_name(filter_names(c1.filters@), n));
        assert(contains_name(fnames, n));
        lemma_contains_concat(bfn, cn, n);
        if contains_name(bfn, n) {
            let j = choose|j: int| 0 <= j < bfn.len() && (#[trigger] bfn[j]) == n;
            assert(bfn[j] == preset_filters(preset)[j].name@);
            assert(lookup_filter(c1.filters@, preset_filters(preset)[j].name@) == Option::Some(
                preset_filters(preset)[j].filter,
            ));
            assert(lookup_filter(c2.filters@, preset_filters(preset)[j].name@) == Option::Some(
                preset_filters(preset)[j].filter,
            ));
        } else {
            let k = choose|k: int| 0 <= k < cn.len() && (#[trigger] cn[k]) == n;
            if k == 0 {
                assert(n == preamp_name());
            } else {
                assert(n == band_name((k - 1) as nat));
                assert(lookup_filter(c1.filters@, band_name((k - 1) as nat)) == Option::Some(
                    Filter::Biquad { parameters: correction.eq_bands@[k - 1] },
                ));
                assert(lookup_filter(c2.filters@, band_name((k - 1) as nat)) == Option::Some(
                    Filter::Biquad { parameters: correction.eq_bands@[k - 1] },
                ));
            }
        }
    }
    assert forall|i: int|
        0 <= i < c1.mixers@.len() implies (#[trigger] c1.mixers@[i]).mixer
        == c2.mixers@[i].mixer by {
        let n = c1.mixers@[i].name@;
        assert(mixer_names(c1.mixers@)[i] == n);
        assert(mixer_names(c2.mixers@)[i] == c2.mixers@[i].name@);
        assert(c2.mixers@[i].name@ == n);
        lemma_lookup_at_mixer(c1.mixers@, i);
        lemma_lookup_at_mixer(c2.mixers@, i);
        assert(contains_name(mixer_names(c1.mixers@), n));
        assert(contains_name(pm, n));
        let j = choose|j: int| 0 <= j < pm.len() && (#[trigger] pm[j]) == n;
        assert(pm[j] == preset_mixers(preset)[j].name@);
        assert(lookup_mixer(c1.mixers@, preset_mixers(preset)[j].name@) == Option::Some(
            preset_mixers(preset)[j].mixer,
        ));
        assert(lookup_mixer(c2.mixers@, preset_mixers(preset)[j].name@) == Option::Some(
            preset_mixers(preset)[j].mixer,
        ));
    }
    assert forall|i: int| 0 <= i < c1.pipeline@.len() implies step_equiv(
        #[trigger] c1.pipeline@[i],
        c2.pipeline@[i],
    ) by {
        if i < ppipe.len() {
            assert(c1.pipeline@[i] == ppipe[i]);
            assert(c2.pipeline@[i] == ppipe[i]);
            match ppipe[i] {
                PipelineStep::Mixer { name } => {},
                PipelineStep::Filter { channel, names } => {},
            }
        } else if i == ppipe.len() {
        } else {
            assert(i == ppipe.len() + 1);
        }
    }
}

} // verus!
