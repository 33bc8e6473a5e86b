//! The document emitter.
//!
//! A configuration serializes to one canonical structured-text document:
//! `mixers` (omitted when empty), `filters` and `pipeline` blocks, keys
//! indented by two spaces per level, sequences as `- ` items.  The two
//! entry maps print in their stored (ascending) name order; the pipeline
//! prints in execution order.  The emitted bytes are a function of the
//! configuration alone, so emission is deterministic.
use vstd::prelude::*;

use crate::configcreation::{
    BiquadParameters, Configuration, Filter, GainParameters, Mixer, MixerMapping, MixerSource,
    NamedFilter, NamedMixer, PeakingWidth, PipelineStep,
};
use crate::crossfeed::Crossfeed;
use crate::decimal::Decimal;
use crate::text::{dec_digits_of, text_lines, u64_digits};
use vstd::string::{StrSliceExecFns, StringSliceAdditionalSpecFns};

verus! {

/// The printed form of a boolean.
pub open spec fn bool_bytes(b: bool) -> Seq<u8> {
    if b {
        "true".spec_bytes()
    } else {
        "false".spec_bytes()
    }
}

/// The printed form of a machine integer.
pub open spec fn usize_bytes(n: usize) -> Seq<u8> {
    dec_digits_of(n as nat)
}

/// One mixer source item.
pub open spec fn yaml_source(s: MixerSource) -> Seq<u8> {
    "      - channel: ".spec_bytes() + usize_bytes(s.channel) + "\n        gain: ".spec_bytes()
        + s.gain.to_bytes() + "\n        inverted: ".spec_bytes() + bool_bytes(s.inverted)
        + "\n        mute: ".spec_bytes() + bool_bytes(s.mute) + "\n".spec_bytes()
}

/// All source items of one mapping, in order.
pub open spec fn yaml_sources(ss: Seq<MixerSource>) -> Seq<u8>
    decreases ss.len(),
{
    if ss.len() == 0 {
        Seq::empty()
    } else {
        yaml_source(ss[0]) + yaml_sources(ss.drop_first())
    }
}

/// One mapping item: destination, sources, mute.
pub open spec fn yaml_mapping(m: MixerMapping) -> Seq<u8> {
    "    - dest: ".spec_bytes() + usize_bytes(m.dest) + "\n      sources:\n".spec_bytes()
        + yaml_sources(m.sources@) + "      mute: ".spec_bytes() + bool_bytes(m.mute)
        + "\n".spec_bytes()
}

/// All mapping items of one mixer, in order.
pub open spec fn yaml_mappings(ms: Seq<MixerMapping>) -> Seq<u8>
    decreases ms.len(),
{
    if ms.len() == 0 {
        Seq::empty()
    } else {
        yaml_mapping(ms[0]) + yaml_mappings(ms.drop_first())
    }
}

/// One named mixer entry.
pub open spec fn yaml_mixer_entry(e: NamedMixer) -> Seq<u8> {
    "  ".spec_bytes() + e.name@ + ":\n    channels:\n      in: ".spec_bytes() + usize_bytes(
        e.mixer.channels.input,
    ) + "\n      out: ".spec_bytes() + usize_bytes(e.mixer.channels.output)
        + "\n    mapping:\n".spec_bytes() + yaml_mappings(e.mixer.mapping@)
}

/// All mixer entries, in stored order.
pub open spec fn yaml_mixer_entries(es: Seq<NamedMixer>) -> Seq<u8>
    decreases es.len(),
{
    if es.len() == 0 {
        Seq::empty()
    } else {
        yaml_mixer_entry(es[0]) + yaml_mixer_entries(es.drop_first())
    }
}

/// The body printed under a band's `parameters:` key.
pub open spec fn yaml_biquad(b: BiquadParameters) -> Seq<u8> {
    match b {
        BiquadParameters::Highpass { freq, q } => "      type: Highpass\n      freq: ".spec_bytes()
            + freq.to_bytes() + "\n      q: ".spec_bytes() + q.to_bytes() + "\n".spec_bytes(),
        BiquadParameters::Lowpass { freq, q } => "      type: Lowpass\n      freq: ".spec_bytes()
            + freq.to_bytes() + "\n      q: ".spec_bytes() + q.to_bytes() + "\n".spec_bytes(),
        BiquadParameters::Peaking(PeakingWidth::Q { freq, q, gain }) => (
        "      type: Peaking\n      freq: ".spec_bytes() + freq.to_bytes()
            + "\n      q: ".spec_bytes() + q.to_bytes() + "\n      gain: ".spec_bytes()
            + gain.to_bytes() + "\n".spec_bytes()),
        BiquadParameters::Peaking(PeakingWidth::Bandwidth { freq, bandwidth, gain }) => (
        "      type: Peaking\n      freq: ".spec_bytes() + freq.to_bytes()
            + "\n      bandwidth: ".spec_bytes() + bandwidth.to_bytes()
            + "\n      gain: ".spec_bytes() + gain.to_bytes() + "\n".spec_bytes()),
        BiquadParameters::HighshelfFO { freq, gain } => (
        "      type: HighshelfFO\n      freq: ".spec_bytes() + freq.to_bytes()
            + "\n      gain: ".spec_bytes() + gain.to_bytes() + "\n".spec_bytes()),
        BiquadParameters::LowshelfFO { freq, gain } => (
        "      type: LowshelfFO\n      freq: ".spec_bytes() + freq.to_bytes()
            + "\n      gain: ".spec_bytes() + gain.to_bytes() + "\n".spec_bytes()),
        BiquadParameters::HighpassFO { freq } => "      type: HighpassFO\n      freq: ".spec_bytes()
            + freq.to_bytes() + "\n".spec_bytes(),
        BiquadParameters::LowpassFO { freq } => "      type: LowpassFO\n      freq: ".spec_bytes()
            + freq.to_bytes() + "\n".spec_bytes(),
    }
}

/// The body printed under a filter entry's name.
pub open spec fn yaml_filter_body(f: Filter) -> Seq<u8> {
    match f {
        Filter::Gain { parameters } => "    type: Gain\n    parameters:\n      gain: ".spec_bytes()
            + parameters.gain.to_bytes() + "\n      inverted: ".spec_bytes() + bool_bytes(
            parameters.inverted,
        ) + "\n      mute: ".spec_bytes() + bool_bytes(parameters.mute) + "\n".spec_bytes(),
        Filter::Biquad { parameters } => "    type: Biquad\n    parameters:\n".spec_bytes()
            + yaml_biquad(parameters),
    }
}

/// One named filter entry.
pub open spec fn yaml_filter_entry(e: NamedFilter) -> Seq<u8> {
    "  ".spec_bytes() + e.name@ + ":\n".spec_bytes() + yaml_filter_body(e.filter)
}

/// All filter entries, in stored order.
pub open spec fn yaml_filter_entries(es: Seq<NamedFilter>) -> Seq<u8>
    decreases es.len(),
{
    if es.len() == 0 {
        Seq::empty()
    } else {
        yaml_filter_entry(es[0]) + yaml_filter_entries(es.drop_first())
    }
}

/// One referenced name inside a filter step's list.
pub open spec fn yaml_step_name(n: Seq<u8>) -> Seq<u8> {
    "  - ".spec_bytes() + n + "\n".spec_bytes()
}

/// All referenced names of a filter step, in order.
pub open spec fn yaml_step_names(ns: Seq<Vec<u8>>) -> Seq<u8>
    decreases ns.len(),
{
    if ns.len() == 0 {
        Seq::empty()
    } else {
        yaml_step_name(ns[0]@) + yaml_step_names(ns.drop_first())
    }
}

/// One pipeline step item.
pub open spec fn yaml_step(s: PipelineStep) -> Seq<u8> {
    match s {
        PipelineStep::Mixer { name } => "- type: Mixer\n  name: ".spec_bytes() + name@
            + "\n".spec_bytes(),
        PipelineStep::Filter { channel, names } => "- type: Filter\n  channel: ".spec_bytes()
            + usize_bytes(channel) + "\n  names:\n".spec_bytes() + yaml_step_names(names@),
    }
}

/// All pipeline steps, in execution order.
pub open spec fn yaml_steps(ss: Seq<PipelineStep>) -> Seq<u8>
    decreases ss.len(),
{
    if ss.len() == 0 {
        Seq::empty()
    } else {
        yaml_step(ss[0]) + yaml_steps(ss.drop_first())
    }
}

/// The serialized configuration: `mixers` (only when present), then
/// `filters`, then `pipeline`.
pub open spec fn yaml_config(c: Configuration) -> Seq<u8> {
    (if c.mixers@.len() > 0 {
        "mixers:\n".spec_bytes() + yaml_mixer_entries(c.mixers@)
    } else {
        Seq::empty()
    }) + "filters:\n".spec_bytes() + yaml_filter_entries(c.filters@) + "pipeline:\n".spec_bytes()
        + yaml_steps(c.pipeline@)
}

pub proof fn lemma_yaml_sources_push(ss: Seq<MixerSource>, s: MixerSource)
    ensures
        yaml_sources(ss.push(s)) =~= yaml_sources(ss) + yaml_source(s),
    decreases ss.len(),
{
    if ss.len() == 0 {
        assert(ss.push(s)[0] == s);
        assert(ss.push(s).drop_first() =~= Seq::<MixerSource>::empty());
        assert(yaml_sources(Seq::<MixerSource>::empty()) == Seq::<u8>::empty());
    } else {
        assert(ss.push(s)[0] == ss[0]);
        assert(ss.push(s).drop_first() =~= ss.drop_first().push(s));
        lemma_yaml_sources_push(ss.drop_first(), s);
    }
}

pub proof fn lemma_yaml_mappings_push(ms: Seq<MixerMapping>, m: MixerMapping)
    ensures
        yaml_mappings(ms.push(m)) =~= yaml_mappings(ms) + yaml_mapping(m),
    decreases ms.len(),
{
    if ms.len() == 0 {
        assert(ms.push(m)[0] == m);
        assert(ms.push(m).drop_first() =~= Seq::<MixerMapping>::empty());
        assert(yaml_mappings(Seq::<MixerMapping>::empty()) == Seq::<u8>::empty());
    } else {
        assert(ms.push(m)[0] == ms[0]);
        assert(ms.push(m).drop_first() =~= ms.drop_first().push(m));
        lemma_yaml_mappings_push(ms.drop_first(), m);
    }
}

pub proof fn lemma_yaml_mixer_entries_push(es: Seq<NamedMixer>, e: NamedMixer)
    ensures
        yaml_mixer_entries(es.push(e)) =~= yaml_mixer_entries(es) + yaml_mixer_entry(e),
    decreases es.len(),
{
    if es.len() == 0 {
        assert(es.push(e)[0] == e);
        assert(es.push(e).drop_first() =~= Seq::<NamedMixer>::empty());
        assert(yaml_mixer_entries(Seq::<NamedMixer>::empty()) == Seq::<u8>::empty());
    } else {
        assert(es.push(e)[0] == es[0]);
        assert(es.push(e).drop_first() =~= es.drop_first().push(e));
        lemma_yaml_mixer_entries_push(es.drop_first(), e);
    }
}

pub proof fn lemma_yaml_filter_entries_push(es: Seq<NamedFilter>, e: NamedFilter)
    ensures
        yaml_filter_entries(es.push(e)) =~= yaml_filter_entries(es) + yaml_filter_entry(e),
    decreases es.len(),
{
    if es.len() == 0 {
        assert(es.push(e)[0] == e);
        assert(es.push(e).drop_first() =~= Seq::<NamedFilter>::empty());
        assert(yaml_filter_entries(Seq::<NamedFilter>::empty()) == Seq::<u8>::empty());
    } else {
        assert(es.push(e)[0] == es[0]);
        assert(es.push(e).drop_first() =~= es.drop_first().push(e));
        lemma_yaml_filter_entries_push(es.drop_first(), e);
    }
}

pub proof fn lemma_yaml_step_names_push(ns: Seq<Vec<u8>>, n: Vec<u8>)
    ensures
        yaml_step_names(ns.push(n)) =~= yaml_step_names(ns) + yaml_step_name(n@),
    decreases ns.len(),
{
    if ns.len() == 0 {
        assert(ns.push(n)[0] == n);
        assert(ns.push(n).drop_first() =~= Seq::<Vec<u8>>::empty());
        assert(yaml_step_names(Seq::<Vec<u8>>::empty()) == Seq::<u8>::empty());
    } else {
        assert(ns.push(n)[0] == ns[0]);
        assert(ns.push(n).drop_first() =~= ns.drop_first().push(n));
        lemma_yaml_step_names_push(ns.drop_first(), n);
    }
}

pub proof fn lemma_yaml_steps_push(ss: Seq<PipelineStep>, s: PipelineStep)
    ensures
        yaml_steps(ss.push(s)) =~= yaml_steps(ss) + yaml_step(s),
    decreases ss.len(),
{
    if ss.len() == 0 {
        assert(ss.push(s)[0] == s);
        assert(ss.push(s).drop_first() =~= Seq::<PipelineStep>::empty());
        assert(yaml_steps(Seq::<PipelineStep>::empty()) == Seq::<u8>::empty());
    } else {
        assert(ss.push(s)[0] == ss[0]);
        assert(ss.push(s).drop_first() =~= ss.drop_first().push(s));
        lemma_yaml_steps_push(ss.drop_first(), s);
    }
}

/// Appends raw bytes.
fn put(out: &mut Vec<u8>, bytes: &[u8])
    ensures
        final(out)@ == old(out)@ + bytes@,
{
    let ghost o = out@;
    out.extend_from_slice(bytes);
    proof {
        assert(out@ =~= o + bytes@);
    }
}

/// Appends a literal.
fn put_str(out: &mut Vec<u8>, s: &str)
    ensures
        final(out)@ == old(out)@ + s.spec_bytes(),
{
    put(out, s.as_bytes());
}

/// Appends a machine integer in decimal.
fn put_usize(out: &mut Vec<u8>, n: usize)
    ensures
        final(out)@ == old(out)@ + usize_bytes(n),
{
    let d = u64_digits(n as u64);
    proof {
        assert(n as u64 as nat == n as nat);
    }
    put(out, d.as_slice());
}

/// Appends a decimal value's token.
fn put_dec(out: &mut Vec<u8>, d: &Decimal)
    requires
        d.wf(),
    ensures
        final(out)@ == old(out)@ + d.to_bytes(),
{
    let v = d.render();
    put(out, v.as_slice());
}

/// Appends the printed form of a boolean.
fn put_bool(out: &mut Vec<u8>, b: bool)
    ensures
        final(out)@ == old(out)@ + bool_bytes(b),
{
    if b {
        put_str(out, "true");
    } else {
        put_str(out, "false");
    }
}


/// Prints one mixer source item.
fn emit_source(out: &mut Vec<u8>, s: &MixerSource)
    requires
        s.gain.wf(),
    ensures
        final(out)@ == old(out)@ + yaml_source(*s),
{
    let ghost o = out@;
    put_str(out, "      - channel: ");
    put_usize(out, s.channel);
    put_str(out, "\n        gain: ");
    put_dec(out, &s.gain);
    put_str(out, "\n        inverted: ");
    put_bool(out, s.inverted);
    put_str(out, "\n        mute: ");
    put_bool(out, s.mute);
    put_str(out, "\n");
    proof {
        assert(out@ =~= o + yaml_source(*s));
    }
}

/// Prints one mapping item with all its sources.
#[verifier::rlimit(100)]
fn emit_mapping(out: &mut Vec<u8>, m: &MixerMapping)
    requires
        forall|j: int| 0 <= j < m.sources@.len() ==> (#[trigger] m.sources@[j]).gain.wf(),
    ensures
        final(out)@ == old(out)@ + yaml_mapping(*m),
{
    let ghost o = out@;
    put_str(out, "    - dest: ");
    put_usize(out, m.dest);
    put_str(out, "\n      sources:\n");
    let ghost mid = out@;
    let n: usize = m.sources.len();
    let mut i: usize = 0;
    proof {
        assert(m.sources@.take(0) =~= Seq::<MixerSource>::empty());
        assert(out@ =~= mid + yaml_sources(m.sources@.take(0)));
    }
    #[verifier::loop_isolation(false)]
    while i < n
        invariant
            0 <= i <= n,
            out@ =~= mid + yaml_sources(m.sources@.take(i as int)),
        decreases n - i,
    {
        emit_source(out, &m.sources[i]);
        proof {
            assert(m.sources@.take(i + 1) =~= m.sources@.take(i as int).push(
                m.sources@[i as int],
            ));
            lemma_yaml_sources_push(m.sources@.take(i as int), m.sources@[i as int]);
        }
        i += 1;
    }
    proof {
        assert(m.sources@.take(n as int) =~= m.sources@);
        assert(out@ =~= o + ("    - dest: ".spec_bytes() + usize_bytes(m.dest)
            + "\n      sources:\n".spec_bytes() + yaml_sources(m.sources@)));
    }
    put_str(out, "      mute: ");
    put_bool(out, m.mute);
    put_str(out, "\n");
    proof {
        assert(out@ =~= o + yaml_mapping(*m));
    }
}

/// Prints one named mixer entry.
#[verifier::rlimit(60)]
fn emit_mixer_entry(out: &mut Vec<u8>, e: &NamedMixer)
    requires
        crate::configcreation::mixer_wf(e.mixer),
    ensures
        final(out)@ == old(out)@ + yaml_mixer_entry(*e),
{
    let ghost o = out@;
    put_str(out, "  ");
    put(out, e.name.as_slice());
    put_str(out, ":\n    channels:\n      in: ");
    put_usize(out, e.mixer.channels.input);
    put_str(out, "\n      out: ");
    put_usize(out, e.mixer.channels.output);
    put_str(out, "\n    mapping:\n");
    proof {
        assert(out@ =~= o + ("  ".spec_bytes() + e.name@
            + ":\n    channels:\n      in: ".spec_bytes() + usize_bytes(e.mixer.channels.input)
            + "\n      out: ".spec_bytes() + usize_bytes(e.mixer.channels.output)
            + "\n    mapping:\n".spec_bytes()));
    }
    let ghost mid = out@;
    let n: usize = e.mixer.mapping.len();
    let mut i: usize = 0;
    proof {
        assert(e.mixer.mapping@.take(0) =~= Seq::<MixerMapping>::empty());
        assert(out@ =~= mid + yaml_mappings(e.mixer.mapping@.take(0)));
    }
    #[verifier::loop_isolation(false)]
    while i < n
        invariant
            0 <= i <= n,
            out@ =~= mid + yaml_mappings(e.mixer.mapping@.take(i as int)),
        decreases n - i,
    {
        emit_mapping(out, &e.mixer.mapping[i]);
        proof {
            assert(e.mixer.mapping@.take(i + 1) =~= e.mixer.mapping@.take(i as int).push(
                e.mixer.mapping@[i as int],
            ));
            lemma_yaml_mappings_push(e.mixer.mapping@.take(i as int), e.mixer.mapping@[i as int]);
        }
        i += 1;
    }
    proof {
        assert(e.mixer.mapping@.take(n as int) =~= e.mixer.mapping@);
        assert(out@ =~= o + yaml_mixer_entry(*e));
    }
}

/// Prints a band's parameters.
#[verifier::rlimit(100)]
fn emit_biquad(out: &mut Vec<u8>, b: &BiquadParameters)
    requires
        crate::configcreation::biquad_wf(*b),
    ensures
        final(out)@ == old(out)@ + yaml_biquad(*b),
{
    let ghost o = out@;
    match b {
        BiquadParameters::Highpass { freq, q } => {
            put_str(out, "      type: Highpass\n      freq: ");
            put_dec(out, freq);
            put_str(out, "\n      q: ");
            put_dec(out, q);
            put_str(out, "\n");
        },
        BiquadParameters::Lowpass { freq, q } => {
            put_str(out, "      type: Lowpass\n      freq: ");
            put_dec(out, freq);
            put_str(out, "\n      q: ");
            put_dec(out, q);
            put_str(out, "\n");
        },
        BiquadParameters::Peaking(PeakingWidth::Q { freq, q, gain }) => {
            put_str(out, "      type: Peaking\n      freq: ");
            put_dec(out, freq);
            put_str(out, "\n      q: ");
            put_dec(out, q);
            put_str(out, "\n      gain: ");
            put_dec(out, gain);
            put_str(out, "\n");
        },
        BiquadParameters::Peaking(PeakingWidth::Bandwidth { freq, bandwidth, gain }) => {
            put_str(out, "      type: Peaking\n      freq: ");
            put_dec(out, freq);
            put_str(out, "\n      bandwidth: ");
            put_dec(out, bandwidth);
            put_str(out, "\n      gain: ");
            put_dec(out, gain);
            put_str(out, "\n");
        },
        BiquadParameters::HighshelfFO { freq, gain } => {
            put_str(out, "      type: HighshelfFO\n      freq: ");
            put_dec(out, freq);
            put_str(out, "\n      gain: ");
            put_dec(out, gain);
            put_str(out, "\n");
        },
        BiquadParameters::LowshelfFO { freq, gain } => {
            put_str(out, "      type: LowshelfFO\n      freq: ");
            put_dec(out, freq);
            put_str(out, "\n      gain: ");
            put_dec(out, gain);
            put_str(out, "\n");
        },
        BiquadParameters::HighpassFO { freq } => {
            put_str(out, "      type: HighpassFO\n      freq: ");
            put_dec(out, freq);
            put_str(out, "\n");
        },
        BiquadParameters::LowpassFO { freq } => {
            put_str(out, "      type: LowpassFO\n      freq: ");
            put_dec(out, freq);
            put_str(out, "\n");
        },
    }
    proof {
        match b {
            BiquadParameters::Highpass { freq, q } => {
                assert(out@ =~= o + yaml_biquad(*b));
            },
            BiquadParameters::Lowpass { freq, q } => {
                assert(out@ =~= o + yaml_biquad(*b));
            },
            BiquadParameters::Peaking(PeakingWidth::Q { freq, q, gain }) => {
                assert(out@ =~= o + yaml_biquad(*b));
            },
            BiquadParameters::Peaking(PeakingWidth::Bandwidth { freq, bandwidth, gain }) => {
                assert(out@ =~= o + yaml_biquad(*b));
            },
            BiquadParameters::HighshelfFO { freq, gain } => {
                assert(out@ =~= o + yaml_biquad(*b));
            },
            BiquadParameters::LowshelfFO { freq, gain } => {
                assert(out@ =~= o + yaml_biquad(*b));
            },
            BiquadParameters::HighpassFO { freq } => {
                assert(out@ =~= o + yaml_biquad(*b));
            },
            BiquadParameters::LowpassFO { freq } => {
                assert(out@ =~= o + yaml_biquad(*b));
            },
        }
    }
}

/// Prints a filter's typed body.
fn emit_filter_body(out: &mut Vec<u8>, f: &Filter)
    requires
        crate::configcreation::filter_wf(*f),
    ensures
        final(out)@ == old(out)@ + yaml_filter_body(*f),
{
    let ghost o = out@;
    match f {
        Filter::Gain { parameters } => {
            put_str(out, "    type: Gain\n    parameters:\n      gain: ");
            put_dec(out, &parameters.gain);
            put_str(out, "\n      inverted: ");
            put_bool(out, parameters.inverted);
            put_str(out, "\n      mute: ");
            put_bool(out, parameters.mute);
            put_str(out, "\n");
        },
        Filter::Biquad { parameters } => {
            put_str(out, "    type: Biquad\n    parameters:\n");
            emit_biquad(out, parameters);
        },
    }
    proof {
        assert(out@ =~= o + yaml_filter_body(*f));
    }
}

/// Prints one named filter entry.
fn emit_filter_entry(out: &mut Vec<u8>, e: &NamedFilter)
    requires
        crate::configcreation::filter_wf(e.filter),
    ensures
        final(out)@ == old(out)@ + yaml_filter_entry(*e),
{
    let ghost o = out@;
    put_str(out, "  ");
    put(out, e.name.as_slice());
    put_str(out, ":\n");
    emit_filter_body(out, &e.filter);
    proof {
        assert(out@ =~= o + yaml_filter_entry(*e));
    }
}

/// Prints one pipeline step item.
fn emit_step(out: &mut Vec<u8>, s: &PipelineStep)
    ensures
        final(out)@ == old(out)@ + yaml_step(*s),
{
    let ghost o = out@;
    match s {
        PipelineStep::Mixer { name } => {
            put_str(out, "- type: Mixer\n  name: ");
            put(out, name.as_slice());
            put_str(out, "\n");
        },
        PipelineStep::Filter { channel, names } => {
            put_str(out, "- type: Filter\n  channel: ");
            put_usize(out, *channel);
            put_str(out, "\n  names:\n");
            let ghost mid = out@;
            let n: usize = names.len();
            let mut i: usize = 0;
            proof {
                assert(names@.take(0) =~= Seq::<Vec<u8>>::empty());
                assert(out@ =~= mid + yaml_step_names(names@.take(0)));
            }
            #[verifier::loop_isolation(false)]
            while i < n
                invariant
                    0 <= i <= n,
                    out@ =~= mid + yaml_step_names(names@.take(i as int)),
                decreases n - i,
            {
                let ghost before = out@;
                put_str(out, "  - ");
                put(out, names[i].as_slice());
                put_str(out, "\n");
                proof {
                    assert(out@ =~= before + yaml_step_name(names@[i as int]@));
                    assert(names@.take(i + 1) =~= names@.take(i as int).push(names@[i as int]));
                    lemma_yaml_step_names_push(names@.take(i as int), names@[i as int]);
                }
                i += 1;
            }
            proof {
                assert(names@.take(n as int) =~= names@);
            }
        },
    }
    proof {
        assert(out@ =~= o + yaml_step(*s));
    }
}

/// Serializes a configuration to its canonical document body.
#[verifier::rlimit(100)]
pub fn emit_configuration(c: &Configuration) -> (r: Vec<u8>)
    requires
        c.wf(),
    ensures
        r@ == yaml_config(*c),
{
    let mut out: Vec<u8> = Vec::new();
    if c.mixers.len() > 0 {
        put_str(&mut out, "mixers:\n");
        let ghost mid = out@;
        let n: usize = c.mixers.len();
        let mut i: usize = 0;
        proof {
            assert(c.mixers@.take(0) =~= Seq::<NamedMixer>::empty());
            assert(out@ =~= mid + yaml_mixer_entries(c.mixers@.take(0)));
        }
        #[verifier::loop_isolation(false)]
        while i < n
            invariant
                0 <= i <= n,
                out@ =~= mid + yaml_mixer_entries(c.mixers@.take(i as int)),
            decreases n - i,
        {
            emit_mixer_entry(&mut out, &c.mixers[i]);
            proof {
                assert(c.mixers@.take(i + 1) =~= c.mixers@.take(i as int).push(
                    c.mixers@[i as int],
                ));
                lemma_yaml_mixer_entries_push(c.mixers@.take(i as int), c.mixers@[i as int]);
            }
            i += 1;
        }
        proof {
            assert(c.mixers@.take(n as int) =~= c.mixers@);
        }
    }
    let ghost head = out@;
    put_str(&mut out, "filters:\n");
    let ghost fmid = out@;
    let fnum: usize = c.filters.len();
    let mut i: usize = 0;
    proof {
        assert(c.filters@.take(0) =~= Seq::<NamedFilter>::empty());
        assert(out@ =~= fmid + yaml_filter_entries(c.filters@.take(0)));
    }
    #[verifier::loop_isolation(false)]
    while i < fnum
        invariant
            0 <= i <= fnum,
            out@ =~= fmid + yaml_filter_entries(c.filters@.take(i as int)),
        decreases fnum - i,
    {
        emit_filter_entry(&mut out, &c.filters[i]);
        proof {
            assert(c.filters@.take(i + 1) =~= c.filters@.take(i as int).push(
                c.filters@[i as int],
            ));
            lemma_yaml_filter_entries_push(c.filters@.take(i as int), c.filters@[i as int]);
        }
        i += 1;
    }
    proof {
        assert(c.filters@.take(fnum as int) =~= c.filters@);
    }
    put_str(&mut out, "pipeline:\n");
    let ghost pmid = out@;
    let pnum: usize = c.pipeline.len();
    let mut i: usize = 0;
    proof {
        assert(c.pipeline@.take(0) =~= Seq::<PipelineStep>::empty());
        assert(out@ =~= pmid + yaml_steps(c.pipeline@.take(0)));
    }
    #[verifier::loop_isolation(false)]
    while i < pnum
        invariant
            0 <= i <= pnum,
            out@ =~= pmid + yaml_steps(c.pipeline@.take(i as int)),
        decreases pnum - i,
    {
        emit_step(&mut out, &c.pipeline[i]);
        proof {
            assert(c.pipeline@.take(i + 1) =~= c.pipeline@.take(i as int).push(
                c.pipeline@[i as int],
            ));
            lemma_yaml_steps_push(c.pipeline@.take(i as int), c.pipeline@[i as int]);
        }
        i += 1;
    }
    proof {
        assert(c.pipeline@.take(pnum as int) =~= c.pipeline@);
        assert(out@ =~= yaml_config(*c));
    }
    out
}


/// The document-start marker line.
pub open spec fn marker() -> Seq<u8> {
    "---".spec_bytes()
}

/// A fragment's lines with every document marker dropped and a newline
/// restored after each kept line.
pub open spec fn kept_lines(ls: Seq<Seq<u8>>) -> Seq<u8>
    decreases ls.len(),
{
    if ls.len() == 0 {
        Seq::empty()
    } else if ls[0] == marker() {
        kept_lines(ls.drop_first())
    } else {
        ls[0] + "\n".spec_bytes() + kept_lines(ls.drop_first())
    }
}

pub proof fn lemma_kept_lines_push(ls: Seq<Seq<u8>>, l: Seq<u8>)
    ensures
        kept_lines(ls.push(l)) =~= kept_lines(ls) + (if l == marker() {
            Seq::<u8>::empty()
        } else {
            l + "\n".spec_bytes()
        }),
    decreases ls.len(),
{
    let p = ls.push(l);
    let part = if l == marker() {
        Seq::<u8>::empty()
    } else {
        l + "\n".spec_bytes()
    };
    if ls.len() == 0 {
        assert(p[0] == l);
        assert(p.drop_first() =~= Seq::<Seq<u8>>::empty());
        assert(kept_lines(Seq::<Seq<u8>>::empty()) == Seq::<u8>::empty());
        assert(kept_lines(p) =~= kept_lines(ls) + part);
    } else {
        assert(p[0] == ls[0]);
        assert(p.drop_first() =~= ls.drop_first().push(l));
        lemma_kept_lines_push(ls.drop_first(), l);
        assert(kept_lines(p.drop_first()) =~= kept_lines(ls.drop_first()) + part);
        if ls[0] == marker() {
            assert(kept_lines(p) =~= kept_lines(ls) + part);
        } else {
            assert(kept_lines(p) =~= kept_lines(ls) + part);
        }
    }
}

/// A fragment as embedded in the document: split into lines, markers
/// dropped, newlines restored.
pub open spec fn stripped_fragment(s: Seq<u8>) -> Seq<u8> {
    kept_lines(text_lines(s))
}

/// The whole output document: exactly one marker at the top, then the
/// header fragment, the devices fragment, and the serialized
/// configuration, in that order, with any embedded markers removed.
pub open spec fn document_of(c: Configuration, header: Seq<u8>, devices: Seq<u8>) -> Seq<u8> {
    "---\n".spec_bytes() + stripped_fragment(header) + stripped_fragment(devices) + yaml_config(c)
}

/// Copies a fragment with every marker line removed.
fn strip_marker_lines(out: &mut Vec<u8>, s: &[u8])
    ensures
        final(out)@ == old(out)@ + stripped_fragment(s@),
{
    let ghost o = out@;
    let lines = crate::text::lines_of(s);
    let ghost ls = crate::text::views_of(lines@);
    let n: usize = lines.len();
    let mut i: usize = 0;
    proof {
        assert(ls.take(0) =~= Seq::<Seq<u8>>::empty());
        assert(out@ =~= o + kept_lines(ls.take(0)));
    }
    #[verifier::loop_isolation(false)]
    while i < n
        invariant
            0 <= i <= n,
            out@ =~= o + kept_lines(ls.take(i as int)),
        decreases n - i,
    {
        proof {
            assert(ls[i as int] == lines@[i as int]@);
            assert(ls.take(i + 1) =~= ls.take(i as int).push(ls[i as int]));
            lemma_kept_lines_push(ls.take(i as int), ls[i as int]);
        }
        let line = &lines[i];
        let is_marker = line.len() == 3 && line[0] == 45 && line[1] == 45 && line[2] == 45;
        proof {
            reveal_strlit("---");
            assert(vstd::string::is_ascii("---"));
            vstd::string::is_ascii_spec_bytes("---");
            if is_marker {
                assert(line@ =~= marker());
            } else {
                assert(line@ != marker());
            }
        }
        if !is_marker {
            put(out, line.as_slice());
            put_str(out, "\n");
        }
        i += 1;
    }
    proof {
        assert(ls.take(n as int) =~= ls);
    }
}

/// Assembles the whole output document: one marker line, the header and
/// devices fragments with their own markers stripped line by line, and
/// the configuration's serialization.
pub fn emit_document(config: &Configuration, header: &[u8], devices: &[u8]) -> (r: Vec<u8>)
    requires
        config.wf(),
    ensures
        r@ == document_of(*config, header@, devices@),
{
    let mut out: Vec<u8> = Vec::new();
    put_str(&mut out, "---\n");
    strip_marker_lines(&mut out, header);
    strip_marker_lines(&mut out, devices);
    let body = emit_configuration(config);
    put(&mut out, body.as_slice());
    proof {
        assert(out@ =~= document_of(*config, header@, devices@));
    }
    out
}

/// Spaces become underscores in a file name.
pub open spec fn underscored(s: Seq<u8>) -> Seq<u8> {
    s.map_values(|b: u8| if b == 32 { 95u8 } else { b })
}

/// The file-name suffix identifying a crossfeed choice.
pub open spec fn crossfeed_suffix(cf: Crossfeed) -> Seq<u8> {
    match cf {
        Crossfeed::Off => "EQ".spec_bytes(),
        Crossfeed::PowChuMoy => "EQ-ChuMoy".spec_bytes(),
        Crossfeed::Mmp => "EQ-MMP".spec_bytes(),
    }
}

/// The destination file name for a device and a crossfeed choice.
pub open spec fn filename_of(name: Seq<u8>, cf: Crossfeed) -> Seq<u8> {
    underscored(name) + "-".spec_bytes() + crossfeed_suffix(cf) + ".yml".spec_bytes()
}

/// Derives the destination file name: spaces in the display name become
/// underscores, and the suffix names the crossfeed choice.
pub fn create_filename(headphone_name: &[u8], crossfeed: &Crossfeed) -> (r: Vec<u8>)
    ensures
        r@ == filename_of(headphone_name@, *crossfeed),
{
    let mut out: Vec<u8> = Vec::new();
    let n: usize = headphone_name.len();
    let mut i: usize = 0;
    #[verifier::loop_isolation(false)]
    while i < n
        invariant
            0 <= i <= n,
            out@.len() == i,
            forall|j: int| 0 <= j < i ==> out@[j] == underscored(headphone_name@)[j],
        decreases n - i,
    {
        let b = headphone_name[i];
        if b == 32 {
            out.push(95);
        } else {
            out.push(b);
        }
        i += 1;
    }
    proof {
        assert(out@ =~= underscored(headphone_name@));
    }
    put_str(&mut out, "-");
    match crossfeed {
        Crossfeed::Off => put_str(&mut out, "EQ"),
        Crossfeed::PowChuMoy => put_str(&mut out, "EQ-ChuMoy"),
        Crossfeed::Mmp => put_str(&mut out, "EQ-MMP"),
    }
    put_str(&mut out, ".yml");
    proof {
        assert(out@ =~= filename_of(headphone_name@, *crossfeed));
    }
    out
}


/// A single line feed.
pub open spec fn nl() -> Seq<u8> {
    "\n".spec_bytes()
}

/// Free of line feeds and carriage returns.
pub open spec fn clean_text(s: Seq<u8>) -> bool {
    forall|i: int| 0 <= i < s.len() ==> #[trigger] s[i] != 10 && s[i] != 13
}

/// A block of whole lines none of which is the document marker.
pub open spec fn safe_block(s: Seq<u8>) -> bool {
    &&& (s.len() == 0 || s.last() == 10)
    &&& forall|i: int| 0 <= i < text_lines(s).len() ==> (#[trigger] text_lines(s)[i]) != marker()
}

proof fn lemma_nl_bytes()
    ensures
        nl() =~= seq![10u8],
        marker() =~= seq![45u8, 45u8, 45u8],
{
    reveal_strlit("\n");
    reveal_strlit("---");
    assert(vstd::string::is_ascii("\n"));
    assert(vstd::string::is_ascii("---"));
    vstd::string::is_ascii_spec_bytes("\n");
    vstd::string::is_ascii_spec_bytes("---");
}

proof fn lemma_safe_empty()
    ensures
        safe_block(Seq::<u8>::empty()),
{
    let e = Seq::<u8>::empty();
    assert(crate::text::split_seq(e, 10) == seq![Seq::<u8>::empty()]);
    assert(seq![Seq::<u8>::empty()].last().len() == 0);
    assert(text_lines(e) =~= Seq::<Seq<u8>>::empty());
}

/// A clean, non-marker line followed by a line feed is a safe block.
proof fn lemma_safe_line(content: Seq<u8>)
    requires
        clean_text(content),
        content != marker(),
    ensures
        safe_block(content + nl()),
{
    lemma_nl_bytes();
    let s = content + nl();
    assert(s.last() == 10);
    assert forall|i: int| 0 <= i < content.len() implies s[i] != 10 by {
        assert(s[i] == content[i]);
    }
    assert(s[content.len() as int] == 10);
    crate::text::lemma_split_seq_step(s, 10, content.len() as int);
    assert(s.take(content.len() as int) =~= content);
    assert(s.skip(content.len() as int + 1) =~= Seq::<u8>::empty());
    assert(crate::text::split_seq(Seq::<u8>::empty(), 10) == seq![Seq::<u8>::empty()]);
    let raw = crate::text::split_seq(s, 10);
    assert(raw =~= seq![content] + seq![Seq::<u8>::empty()]);
    assert(raw.last().len() == 0);
    assert(raw.drop_last() =~= seq![content]);
    assert(text_lines(s) =~= seq![crate::text::drop_cr(content)]);
    assert(crate::text::drop_cr(content) == content) by {
        if content.len() > 0 {
            assert(content[content.len() - 1] != 13);
        }
    }
    assert forall|i: int| 0 <= i < text_lines(s).len() implies (#[trigger] text_lines(s)[i])
        != marker() by {
        assert(text_lines(s)[0] == content);
    }
}

/// Safe blocks concatenate to a safe block.
proof fn lemma_safe_concat(a: Seq<u8>, b: Seq<u8>)
    requires
        safe_block(a),
        safe_block(b),
    ensures
        safe_block(a + b),
{
    if a.len() == 0 {
        assert(a + b =~= b);
    } else if b.len() == 0 {
        assert(a + b =~= a);
    } else {
        crate::text::lemma_text_lines_concat(a, b);
        assert((a + b).last() == b.last());
        assert forall|i: int| 0 <= i < text_lines(a + b).len() implies (#[trigger] text_lines(
            a + b,
        )[i]) != marker() by {
            assert(text_lines(a + b)[i] == (text_lines(a) + text_lines(b))[i]);
            if i < text_lines(a).len() {
                assert(text_lines(a)[i] != marker());
            } else {
                assert(text_lines(b)[i - text_lines(a).len()] != marker());
            }
        }
    }
}

/// A line made of a prefix and a value: clean throughout, and told apart
/// from the marker by its first byte (or its second, for list items).
proof fn lemma_safe_line2(a: Seq<u8>, b: Seq<u8>)
    requires
        clean_text(a),
        clean_text(b),
        a.len() > 0,
        a[0] != 45 || (a.len() >= 2 && a[1] != 45),
    ensures
        safe_block(a + b + nl()),
{
    lemma_nl_bytes();
    let content = a + b;
    assert(clean_text(content)) by {
        assert forall|i: int| 0 <= i < content.len() implies #[trigger] content[i] != 10
            && content[i] != 13 by {
            if i < a.len() {
                assert(content[i] == a[i]);
            } else {
                assert(content[i] == b[i - a.len()]);
            }
        }
    }
    assert(content != marker()) by {
        if content == marker() {
            assert(content[0] == 45);
            assert(content[1] == 45);
            assert(content[0] == a[0]);
            if a.len() >= 2 {
                assert(content[1] == a[1]);
            }
        }
    }
    lemma_safe_line(content);
    assert(content + nl() =~= a + b + nl());
}

/// A line made of two prefixes around a value, such as a name between
/// its indent and a colon.
proof fn lemma_safe_line3(a: Seq<u8>, b: Seq<u8>, c: Seq<u8>)
    requires
        clean_text(a),
        clean_text(b),
        clean_text(c),
        a.len() > 0,
        a[0] != 45 || (a.len() >= 2 && a[1] != 45),
    ensures
        safe_block(a + b + c + nl()),
{
    lemma_nl_bytes();
    let content = a + b + c;
    assert(clean_text(content)) by {
        assert forall|i: int| 0 <= i < content.len() implies #[trigger] content[i] != 10
            && content[i] != 13 by {
            if i < a.len() {
                assert(content[i] == a[i]);
            } else if i < a.len() + b.len() {
                assert(content[i] == b[i - a.len()]);
            } else {
                assert(content[i] == c[i - a.len() - b.len()]);
            }
        }
    }
    assert(content != marker()) by {
        if content == marker() {
            assert(content[0] == 45);
            assert(content[1] == 45);
            assert(content[0] == a[0]);
            if a.len() >= 2 {
                assert(content[1] == a[1]);
            }
        }
    }
    lemma_safe_line(content);
    assert(content + nl() =~= a + b + c + nl());
}

/// Rendered machine integers hold digits only.
proof fn lemma_usize_clean(n: usize)
    ensures
        clean_text(usize_bytes(n)),
{
    crate::text::lemma_dec_digits_wf(n as nat);
    assert forall|i: int| 0 <= i < usize_bytes(n).len() implies #[trigger] usize_bytes(n)[i] != 10
        && usize_bytes(n)[i] != 13 by {
        assert(crate::text::is_digit(usize_bytes(n)[i]));
    }
}

/// Rendered decimals hold a sign, a dot and digits only.
proof fn lemma_dec_clean(d: Decimal)
    requires
        d.wf(),
    ensures
        clean_text(d.to_bytes()),
{
    crate::decimal::lemma_decimal_render_parse(d.negative, d.int_digits@, d.frac_digits@);
    crate::decimal::lemma_decimal_bytes(d.to_bytes());
    assert forall|i: int| 0 <= i < d.to_bytes().len() implies #[trigger] d.to_bytes()[i] != 10
        && d.to_bytes()[i] != 13 by {
        assert(d.to_bytes()[i] == 45 || d.to_bytes()[i] == 46 || crate::text::is_digit(
            d.to_bytes()[i],
        ));
    }
}

/// Rendered booleans hold letters only.
proof fn lemma_bool_clean(b: bool)
    ensures
        clean_text(bool_bytes(b)),
{
    reveal_strlit("true");
    reveal_strlit("false");
    assert(vstd::string::is_ascii("true"));
    assert(vstd::string::is_ascii("false"));
    vstd::string::is_ascii_spec_bytes("true");
    vstd::string::is_ascii_spec_bytes("false");
}

/// Plain names hold letters, digits and underscores only, and never
/// begin with a dash.
proof fn lemma_name_clean(n: Seq<u8>)
    requires
        crate::text::plain_name(n),
    ensures
        clean_text(n),
        n.len() > 0,
        n[0] != 45,
{
    assert forall|i: int| 0 <= i < n.len() implies #[trigger] n[i] != 10 && n[i] != 13 by {
        assert(crate::text::is_name_byte(n[i]));
    }
    assert(crate::text::is_name_byte(n[0]));
}


/// A bare key or type line.
proof fn lemma_safe_line1(a: Seq<u8>)
    requires
        clean_text(a),
        a.len() > 0,
        a[0] != 45 || (a.len() >= 2 && a[1] != 45),
    ensures
        safe_block(a + nl()),
{
    lemma_nl_bytes();
    assert(a != marker()) by {
        if a == marker() {
            assert(a[0] == 45);
            assert(a[1] == 45);
        }
    }
    lemma_safe_line(a);
}

/// Every line a mixer source prints is safe.
proof fn lemma_safe_yaml_source(s: MixerSource)
    requires
        s.gain.wf(),
    ensures
        safe_block(yaml_source(s)),
{
    reveal_strlit("      - channel: ");
    reveal_strlit("\n        gain: ");
    reveal_strlit("\n        inverted: ");
    reveal_strlit("\n        mute: ");
    reveal_strlit("        gain: ");
    reveal_strlit("        inverted: ");
    reveal_strlit("        mute: ");
    reveal_strlit("\n");
    assert(vstd::string::is_ascii("      - channel: "));
    assert(vstd::string::is_ascii("\n        gain: "));
    assert(vstd::string::is_ascii("\n        inverted: "));
    assert(vstd::string::is_ascii("\n        mute: "));
    assert(vstd::string::is_ascii("        gain: "));
    assert(vstd::string::is_ascii("        inverted: "));
    assert(vstd::string::is_ascii("        mute: "));
    assert(vstd::string::is_ascii("\n"));
    vstd::string::is_ascii_spec_bytes("      - channel: ");
    vstd::string::is_ascii_spec_bytes("\n        gain: ");
    vstd::string::is_ascii_spec_bytes("\n        inverted: ");
    vstd::string::is_ascii_spec_bytes("\n        mute: ");
    vstd::string::is_ascii_spec_bytes("        gain: ");
    vstd::string::is_ascii_spec_bytes("        inverted: ");
    vstd::string::is_ascii_spec_bytes("        mute: ");
    vstd::string::is_ascii_spec_bytes("\n");
    assert("\n        gain: ".spec_bytes() =~= nl() + "        gain: ".spec_bytes());
    assert("\n        inverted: ".spec_bytes() =~= nl() + "        inverted: ".spec_bytes());
    assert("\n        mute: ".spec_bytes() =~= nl() + "        mute: ".spec_bytes());
    lemma_usize_clean(s.channel);
    lemma_dec_clean(s.gain);
    lemma_bool_clean(s.inverted);
    lemma_bool_clean(s.mute);
    assert(clean_text("      - channel: ".spec_bytes()));
    assert(clean_text("        gain: ".spec_bytes()));
    assert(clean_text("        inverted: ".spec_bytes()));
    assert(clean_text("        mute: ".spec_bytes()));
    let b1 = "      - channel: ".spec_bytes() + usize_bytes(s.channel) + nl();
    let b2 = "        gain: ".spec_bytes() + s.gain.to_bytes() + nl();
    let b3 = "        inverted: ".spec_bytes() + bool_bytes(s.inverted) + nl();
    let b4 = "        mute: ".spec_bytes() + bool_bytes(s.mute) + nl();
    lemma_safe_line2("      - channel: ".spec_bytes(), usize_bytes(s.channel));
    lemma_safe_line2("        gain: ".spec_bytes(), s.gain.to_bytes());
    lemma_safe_line2("        inverted: ".spec_bytes(), bool_bytes(s.inverted));
    lemma_safe_line2("        mute: ".spec_bytes(), bool_bytes(s.mute));
    lemma_safe_concat(b1, b2);
    lemma_safe_concat(b1 + b2, b3);
    lemma_safe_concat(b1 + b2 + b3, b4);
    assert(yaml_source(s) =~= b1 + b2 + b3 + b4);
}

/// Every line a source list prints is safe.
proof fn lemma_safe_yaml_sources(ss: Seq<MixerSource>)
    requires
        forall|j: int| 0 <= j < ss.len() ==> (#[trigger] ss[j]).gain.wf(),
    ensures
        safe_block(yaml_sources(ss)),
    decreases ss.len(),
{
    if ss.len() == 0 {
        lemma_safe_empty();
        assert(yaml_sources(ss) == Seq::<u8>::empty());
    } else {
        lemma_safe_yaml_source(ss[0]);
        let t = ss.drop_first();
        assert forall|j: int| 0 <= j < t.len() implies (#[trigger] t[j]).gain.wf() by {
            assert(t[j] == ss[j + 1]);
        }
        lemma_safe_yaml_sources(t);
        lemma_safe_concat(yaml_source(ss[0]), yaml_sources(t));
    }
}

/// Every line a mapping item prints is safe.
proof fn lemma_safe_yaml_mapping(m: MixerMapping)
    requires
        forall|j: int| 0 <= j < m.sources@.len() ==> (#[trigger] m.sources@[j]).gain.wf(),
    ensures
        safe_block(yaml_mapping(m)),
{
    reveal_strlit("    - dest: ");
    reveal_strlit("\n      sources:\n");
    reveal_strlit("      sources:");
    reveal_strlit("      mute: ");
    reveal_strlit("\n");
    assert(vstd::string::is_ascii("    - dest: "));
    assert(vstd::string::is_ascii("\n      sources:\n"));
    assert(vstd::string::is_ascii("      sources:"));
    assert(vstd::string::is_ascii("      mute: "));
    assert(vstd::string::is_ascii("\n"));
    vstd::string::is_ascii_spec_bytes("    - dest: ");
    vstd::string::is_ascii_spec_bytes("\n      sources:\n");
    vstd::string::is_ascii_spec_bytes("      sources:");
    vstd::string::is_ascii_spec_bytes("      mute: ");
    vstd::string::is_ascii_spec_bytes("\n");
    assert("\n      sources:\n".spec_bytes() =~= nl() + "      sources:".spec_bytes() + nl());
    lemma_usize_clean(m.dest);
    lemma_bool_clean(m.mute);
    assert(clean_text("    - dest: ".spec_bytes()));
    assert(clean_text("      sources:".spec_bytes()));
    assert(clean_text("      mute: ".spec_bytes()));
    let b1 = "    - dest: ".spec_bytes() + usize_bytes(m.dest) + nl();
    let b2 = "      sources:".spec_bytes() + nl();
    let b3 = yaml_sources(m.sources@);
    let b4 = "      mute: ".spec_bytes() + bool_bytes(m.mute) + nl();
    lemma_safe_line2("    - dest: ".spec_bytes(), usize_bytes(m.dest));
    lemma_safe_line1("      sources:".spec_bytes());
    lemma_safe_yaml_sources(m.sources@);
    lemma_safe_line2("      mute: ".spec_bytes(), bool_bytes(m.mute));
    lemma_safe_concat(b1, b2);
    lemma_safe_concat(b1 + b2, b3);
    lemma_safe_concat(b1 + b2 + b3, b4);
    assert(yaml_mapping(m) =~= b1 + b2 + b3 + b4);
}

/// Every line a mapping list prints is safe.
proof fn lemma_safe_yaml_mappings(ms: Seq<MixerMapping>)
    requires
        forall|i: int, j: int|
            0 <= i < ms.len() && 0 <= j < ms[i].sources@.len()
                ==> (#[trigger] ms[i].sources@[j]).gain.wf(),
    ensures
        safe_block(yaml_mappings(ms)),
    decreases ms.len(),
{
    if ms.len() == 0 {
        lemma_safe_empty();
        assert(yaml_mappings(ms) == Seq::<u8>::empty());
    } else {
        assert forall|j: int| 0 <= j < ms[0].sources@.len() implies (#[trigger] ms[0].sources@[j])
            .gain.wf() by {}
        lemma_safe_yaml_mapping(ms[0]);
        let t = ms.drop_first();
        assert forall|i: int, j: int|
            0 <= i < t.len() && 0 <= j < t[i].sources@.len() implies (#[trigger] t[i].sources@[j])
            .gain.wf() by {
            assert(t[i] == ms[i + 1]);
        }
        lemma_safe_yaml_mappings(t);
        lemma_safe_concat(yaml_mapping(ms[0]), yaml_mappings(t));
    }
}

/// Every line a named mixer entry prints is safe.
proof fn lemma_safe_yaml_mixer_entry(e: NamedMixer)
    requires
        crate::configcreation::mixer_wf(e.mixer),
        crate::text::plain_name(e.name@),
    ensures
        safe_block(yaml_mixer_entry(e)),
{
    reveal_strlit("  ");
    reveal_strlit(":\n    channels:\n      in: ");
    reveal_strlit(":");
    reveal_strlit("    channels:");
    reveal_strlit("      in: ");
    reveal_strlit("\n      out: ");
    reveal_strlit("      out: ");
    reveal_strlit("\n    mapping:\n");
    reveal_strlit("    mapping:");
    reveal_strlit("\n");
    assert(vstd::string::is_ascii("  "));
    assert(vstd::string::is_ascii(":\n    channels:\n      in: "));
    assert(vstd::string::is_ascii(":"));
    assert(vstd::string::is_ascii("    channels:"));
    assert(vstd::string::is_ascii("      in: "));
    assert(vstd::string::is_ascii("\n      out: "));
    assert(vstd::string::is_ascii("      out: "));
    assert(vstd::string::is_ascii("\n    mapping:\n"));
    assert(vstd::string::is_ascii("    mapping:"));
    assert(vstd::string::is_ascii("\n"));
    vstd::string::is_ascii_spec_bytes("  ");
    vstd::string::is_ascii_spec_bytes(":\n    channels:\n      in: ");
    vstd::string::is_ascii_spec_bytes(":");
    vstd::string::is_ascii_spec_bytes("    channels:");
    vstd::string::is_ascii_spec_bytes("      in: ");
    vstd::string::is_ascii_spec_bytes("\n      out: ");
    vstd::string::is_ascii_spec_bytes("      out: ");
    vstd::string::is_ascii_spec_bytes("\n    mapping:\n");
    vstd::string::is_ascii_spec_bytes("    mapping:");
    vstd::string::is_ascii_spec_bytes("\n");
    assert(":\n    channels:\n      in: ".spec_bytes() =~= ":".spec_bytes() + nl()
        + "    channels:".spec_bytes() + nl() + "      in: ".spec_bytes());
    assert("\n      out: ".spec_bytes() =~= nl() + "      out: ".spec_bytes());
    assert("\n    mapping:\n".spec_bytes() =~= nl() + "    mapping:".spec_bytes() + nl());
    lemma_usize_clean(e.mixer.channels.input);
    lemma_usize_clean(e.mixer.channels.output);
    lemma_name_clean(e.name@);
    assert(clean_text("  ".spec_bytes()));
    assert(clean_text(":".spec_bytes()));
    assert(clean_text("    channels:".spec_bytes()));
    assert(clean_text("      in: ".spec_bytes()));
    assert(clean_text("      out: ".spec_bytes()));
    assert(clean_text("    mapping:".spec_bytes()));
    let b1 = "  ".spec_bytes() + e.name@ + ":".spec_bytes() + nl();
    let b2 = "    channels:".spec_bytes() + nl();
    let b3 = "      in: ".spec_bytes() + usize_bytes(e.mixer.channels.input) + nl();
    let b4 = "      out: ".spec_bytes() + usize_bytes(e.mixer.channels.output) + nl();
    let b5 = "    mapping:".spec_bytes() + nl();
    let b6 = yaml_mappings(e.mixer.mapping@);
    lemma_safe_line3("  ".spec_bytes(), e.name@, ":".spec_bytes());
    lemma_safe_line1("    channels:".spec_bytes());
    lemma_safe_line2("      in: ".spec_bytes(), usize_bytes(e.mixer.channels.input));
    lemma_safe_line2("      out: ".spec_bytes(), usize_bytes(e.mixer.channels.output));
    lemma_safe_line1("    mapping:".spec_bytes());
    lemma_safe_yaml_mappings(e.mixer.mapping@);
    lemma_safe_concat(b1, b2);
    lemma_safe_concat(b1 + b2, b3);
    lemma_safe_concat(b1 + b2 + b3, b4);
    lemma_safe_concat(b1 + b2 + b3 + b4, b5);
    lemma_safe_concat(b1 + b2 + b3 + b4 + b5, b6);
    assert(yaml_mixer_entry(e) =~= b1 + b2 + b3 + b4 + b5 + b6);
}

/// Every line the mixer block prints is safe.
proof fn lemma_safe_yaml_mixer_entries(es: Seq<NamedMixer>)
    requires
        forall|i: int|
            0 <= i < es.len() ==> crate::configcreation::mixer_wf((#[trigger] es[i]).mixer)
                && crate::text::plain_name(es[i].name@),
    ensures
        safe_block(yaml_mixer_entries(es)),
    decreases es.len(),
{
    if es.len() == 0 {
        lemma_safe_empty();
        assert(yaml_mixer_entries(es) == Seq::<u8>::empty());
    } else {
        lemma_safe_yaml_mixer_entry(es[0]);
        let t = es.drop_first();
        assert forall|i: int|
            0 <= i < t.len() implies crate::configcreation::mixer_wf((#[trigger] t[i]).mixer)
            && crate::text::plain_name(t[i].name@) by {
            assert(t[i] == es[i + 1]);
        }
        lemma_safe_yaml_mixer_entries(t);
        lemma_safe_concat(yaml_mixer_entry(es[0]), yaml_mixer_entries(t));
    }
}


proof fn lemma_safe_biquad_hp(freq: Decimal, q: Decimal)
    requires
        freq.wf(),
        q.wf(),
    ensures
        safe_block(yaml_biquad(BiquadParameters::Highpass { freq, q })),
{
    reveal_strlit("      freq: ");
    reveal_strlit("      q: ");
    reveal_strlit("      gain: ");
    reveal_strlit("      bandwidth: ");
    reveal_strlit("\n      q: ");
    reveal_strlit("\n      gain: ");
    reveal_strlit("\n      bandwidth: ");
    reveal_strlit("\n");
    assert(vstd::string::is_ascii("      freq: "));
    assert(vstd::string::is_ascii("      q: "));
    assert(vstd::string::is_ascii("      gain: "));
    assert(vstd::string::is_ascii("      bandwidth: "));
    assert(vstd::string::is_ascii("\n      q: "));
    assert(vstd::string::is_ascii("\n      gain: "));
    assert(vstd::string::is_ascii("\n      bandwidth: "));
    assert(vstd::string::is_ascii("\n"));
    vstd::string::is_ascii_spec_bytes("      freq: ");
    vstd::string::is_ascii_spec_bytes("      q: ");
    vstd::string::is_ascii_spec_bytes("      gain: ");
    vstd::string::is_ascii_spec_bytes("      bandwidth: ");
    vstd::string::is_ascii_spec_bytes("\n      q: ");
    vstd::string::is_ascii_spec_bytes("\n      gain: ");
    vstd::string::is_ascii_spec_bytes("\n      bandwidth: ");
    vstd::string::is_ascii_spec_bytes("\n");
    assert("\n      q: ".spec_bytes() =~= nl() + "      q: ".spec_bytes());
    assert("\n      gain: ".spec_bytes() =~= nl() + "      gain: ".spec_bytes());
    assert("\n      bandwidth: ".spec_bytes() =~= nl() + "      bandwidth: ".spec_bytes());
    assert(clean_text("      freq: ".spec_bytes()));
    assert(clean_text("      q: ".spec_bytes()));
    assert(clean_text("      gain: ".spec_bytes()));
    assert(clean_text("      bandwidth: ".spec_bytes()));

    reveal_strlit("      type: Highpass\n      freq: ");
    reveal_strlit("      type: Highpass");
    assert(vstd::string::is_ascii("      type: Highpass\n      freq: "));
    assert(vstd::string::is_ascii("      type: Highpass"));
    vstd::string::is_ascii_spec_bytes("      type: Highpass\n      freq: ");
    vstd::string::is_ascii_spec_bytes("      type: Highpass");
    assert("      type: Highpass\n      freq: ".spec_bytes()
        =~= "      type: Highpass".spec_bytes() + nl() + "      freq: ".spec_bytes());
    assert(clean_text("      type: Highpass".spec_bytes()));
    lemma_dec_clean(freq);
    lemma_dec_clean(q);
    let b1 = "      type: Highpass".spec_bytes() + nl();
    let b2 = "      freq: ".spec_bytes() + freq.to_bytes() + nl();
    let b3 = "      q: ".spec_bytes() + q.to_bytes() + nl();
    lemma_safe_line1("      type: Highpass".spec_bytes());
    lemma_safe_line2("      freq: ".spec_bytes(), freq.to_bytes());
    lemma_safe_line2("      q: ".spec_bytes(), q.to_bytes());
    lemma_safe_concat(b1, b2);
    lemma_safe_concat(b1 + b2, b3);
    assert(yaml_biquad(BiquadParameters::Highpass { freq, q }) =~= b1 + b2 + b3);
}

proof fn lemma_safe_biquad_lp(freq: Decimal, q: Decimal)
    requires
        freq.wf(),
        q.wf(),
    ensures
        safe_block(yaml_biquad(BiquadParameters::Lowpass { freq, q })),
{
    reveal_strlit("      freq: ");
    reveal_strlit("      q: ");
    reveal_strlit("      gain: ");
    reveal_strlit("      bandwidth: ");
    reveal_strlit("\n      q: ");
    reveal_strlit("\n      gain: ");
    reveal_strlit("\n      bandwidth: ");
    reveal_strlit("\n");
    assert(vstd::string::is_ascii("      freq: "));
    assert(vstd::string::is_ascii("      q: "));
    assert(vstd::string::is_ascii("      gain: "));
    assert(vstd::string::is_ascii("      bandwidth: "));
    assert(vstd::string::is_ascii("\n      q: "));
    assert(vstd::string::is_ascii("\n      gain: "));
    assert(vstd::string::is_ascii("\n      bandwidth: "));
    assert(vstd::string::is_ascii("\n"));
    vstd::string::is_ascii_spec_bytes("      freq: ");
    vstd::string::is_ascii_spec_bytes("      q: ");
    vstd::string::is_ascii_spec_bytes("      gain: ");
    vstd::string::is_ascii_spec_bytes("      bandwidth: ");
    vstd::string::is_ascii_spec_bytes("\n      q: ");
    vstd::string::is_ascii_spec_bytes("\n      gain: ");
    vstd::string::is_ascii_spec_bytes("\n      bandwidth: ");
    vstd::string::is_ascii_spec_bytes("\n");
    assert("\n      q: ".spec_bytes() =~= nl() + "      q: ".spec_bytes());
    assert("\n      gain: ".spec_bytes() =~= nl() + "      gain: ".spec_bytes());
    assert("\n      bandwidth: ".spec_bytes() =~= nl() + "      bandwidth: ".spec_bytes());
    assert(clean_text("      freq: ".spec_bytes()));
    assert(clean_text("      q: ".spec_bytes()));
    assert(clean_text("      gain: ".spec_bytes()));
    assert(clean_text("      bandwidth: ".spec_bytes()));

    reveal_strlit("      type: Lowpass\n      freq: ");
    reveal_strlit("      type: Lowpass");
    assert(vstd::string::is_ascii("      type: Lowpass\n      freq: "));
    assert(vstd::string::is_ascii("      type: Lowpass"));
    vstd::string::is_ascii_spec_bytes("      type: Lowpass\n      freq: ");
    vstd::string::is_ascii_spec_bytes("      type: Lowpass");
    assert("      type: Lowpass\n      freq: ".spec_bytes()
        =~= "      type: Lowpass".spec_bytes() + nl() + "      freq: ".spec_bytes());
    assert(clean_text("      type: Lowpass".spec_bytes()));
    lemma_dec_clean(freq);
    lemma_dec_clean(q);
    let b1 = "      type: Lowpass".spec_bytes() + nl();
    let b2 = "      freq: ".spec_bytes() + freq.to_bytes() + nl();
    let b3 = "      q: ".spec_bytes() + q.to_bytes() + nl();
    lemma_safe_line1("      type: Lowpass".spec_bytes());
    lemma_safe_line2("      freq: ".spec_bytes(), freq.to_bytes());
    lemma_safe_line2("      q: ".spec_bytes(), q.to_bytes());
    lemma_safe_concat(b1, b2);
    lemma_safe_concat(b1 + b2, b3);
    assert(yaml_biquad(BiquadParameters::Lowpass { freq, q }) =~= b1 + b2 + b3);
}

proof fn lemma_safe_biquad_pk_q(freq: Decimal, q: Decimal, gain: Decimal)
    requires
        freq.wf(),
        q.wf(),
        gain.wf(),
    ensures
        safe_block(yaml_biquad(BiquadParameters::Peaking(PeakingWidth::Q { freq, q, gain }))),
{
    reveal_strlit("      freq: ");
    reveal_strlit("      q: ");
    reveal_strlit("      gain: ");
    reveal_strlit("      bandwidth: ");
    reveal_strlit("\n      q: ");
    reveal_strlit("\n      gain: ");
    reveal_strlit("\n      bandwidth: ");
    reveal_strlit("\n");
    assert(vstd::string::is_ascii("      freq: "));
    assert(vstd::string::is_ascii("      q: "));
    assert(vstd::string::is_ascii("      gain: "));
    assert(vstd::string::is_ascii("      bandwidth: "));
    assert(vstd::string::is_ascii("\n      q: "));
    assert(vstd::string::is_ascii("\n      gain: "));
    assert(vstd::string::is_ascii("\n      bandwidth: "));
    assert(vstd::string::is_ascii("\n"));
    vstd::string::is_ascii_spec_bytes("      freq: ");
    vstd::string::is_ascii_spec_bytes("      q: ");
    vstd::string::is_ascii_spec_bytes("      gain: ");
    vstd::string::is_ascii_spec_bytes("      bandwidth: ");
    vstd::string::is_ascii_spec_bytes("\n      q: ");
    vstd::string::is_ascii_spec_bytes("\n      gain: ");
    vstd::string::is_ascii_spec_bytes("\n      bandwidth: ");
    vstd::string::is_ascii_spec_bytes("\n");
    assert("\n      q: ".spec_bytes() =~= nl() + "      q: ".spec_bytes());
    assert("\n      gain: ".spec_bytes() =~= nl() + "      gain: ".spec_bytes());
    assert("\n      bandwidth: ".spec_bytes() =~= nl() + "      bandwidth: ".spec_bytes());
    assert(clean_text("      freq: ".spec_bytes()));
    assert(clean_text("      q: ".spec_bytes()));
    assert(clean_text("      gain: ".spec_bytes()));
    assert(clean_text("      bandwidth: ".spec_bytes()));

    reveal_strlit("      type: Peaking\n      freq: ");
    reveal_strlit("      type: Peaking");
    assert(vstd::string::is_ascii("      type: Peaking\n      freq: "));
    assert(vstd::string::is_ascii("      type: Peaking"));
    vstd::string::is_ascii_spec_bytes("      type: Peaking\n      freq: ");
    vstd::string::is_ascii_spec_bytes("      type: Peaking");
    assert("      type: Peaking\n      freq: ".spec_bytes()
        =~= "      type: Peaking".spec_bytes() + nl() + "      freq: ".spec_bytes());
    assert(clean_text("      type: Peaking".spec_bytes()));
    lemma_dec_clean(freq);
    lemma_dec_clean(q);
    lemma_dec_clean(gain);
    let b1 = "      type: Peaking".spec_bytes() + nl();
    let b2 = "      freq: ".spec_bytes() + freq.to_bytes() + nl();
    let b3 = "      q: ".spec_bytes() + q.to_bytes() + nl();
    let b4 = "      gain: ".spec_bytes() + gain.to_bytes() + nl();
    lemma_safe_line1("      type: Peaking".spec_bytes());
    lemma_safe_line2("      freq: ".spec_bytes(), freq.to_bytes());
    lemma_safe_line2("      q: ".spec_bytes(), q.to_bytes());
    lemma_safe_line2("      gain: ".spec_bytes(), gain.to_bytes());
    lemma_safe_concat(b1, b2);
    lemma_safe_concat(b1 + b2, b3);
    lemma_safe_concat(b1 + b2 + b3, b4);
    assert(yaml_biquad(BiquadParameters::Peaking(PeakingWidth::Q { freq, q, gain })) =~= b1 + b2 + b3 + b4);
}

proof fn lemma_safe_biquad_pk_bw(freq: Decimal, bandwidth: Decimal, gain: Decimal)
    requires
        freq.wf(),
        bandwidth.wf(),
        gain.wf(),
    ensures
        safe_block(yaml_biquad(BiquadParameters::Peaking(PeakingWidth::Bandwidth { freq, bandwidth, gain }))),
{
    reveal_strlit("      freq: ");
    reveal_strlit("      q: ");
    reveal_strlit("      gain: ");
    reveal_strlit("      bandwidth: ");
    reveal_strlit("\n      q: ");
    reveal_strlit("\n      gain: ");
    reveal_strlit("\n      bandwidth: ");
    reveal_strlit("\n");
    assert(vstd::string::is_ascii("      freq: "));
    assert(vstd::string::is_ascii("      q: "));
    assert(vstd::string::is_ascii("      gain: "));
    assert(vstd::string::is_ascii("      bandwidth: "));
    assert(vstd::string::is_ascii("\n      q: "));
    assert(vstd::string::is_ascii("\n      gain: "));
    assert(vstd::string::is_ascii("\n      bandwidth: "));
    assert(vstd::string::is_ascii("\n"));
    vstd::string::is_ascii_spec_bytes("      freq: ");
    vstd::string::is_ascii_spec_bytes("      q: ");
    vstd::string::is_ascii_spec_bytes("      gain: ");
    vstd::string::is_ascii_spec_bytes("      bandwidth: ");
    vstd::string::is_ascii_spec_bytes("\n      q: ");
    vstd::string::is_ascii_spec_bytes("\n      gain: ");
    vstd::string::is_ascii_spec_bytes("\n      bandwidth: ");
    vstd::string::is_ascii_spec_bytes("\n");
    assert("\n      q: ".spec_bytes() =~= nl() + "      q: ".spec_bytes());
    assert("\n      gain: ".spec_bytes() =~= nl() + "      gain: ".spec_bytes());
    assert("\n      bandwidth: ".spec_bytes() =~= nl() + "      bandwidth: ".spec_bytes());
    assert(clean_text("      freq: ".spec_bytes()));
    assert(clean_text("      q: ".spec_bytes()));
    assert(clean_text("      gain: ".spec_bytes()));
    assert(clean_text("      bandwidth: ".spec_bytes()));

    reveal_strlit("      type: Peaking\n      freq: ");
    reveal_strlit("      type: Peaking");
    assert(vstd::string::is_ascii("      type: Peaking\n      freq: "));
    assert(vstd::string::is_ascii("      type: Peaking"));
    vstd::string::is_ascii_spec_bytes("      type: Peaking\n      freq: ");
    vstd::string::is_ascii_spec_bytes("      type: Peaking");
    assert("      type: Peaking\n      freq: ".spec_bytes()
        =~= "      type: Peaking".spec_bytes() + nl() + "      freq: ".spec_bytes());
    assert(clean_text("      type: Peaking".spec_bytes()));
    lemma_dec_clean(freq);
    lemma_dec_clean(bandwidth);
    lemma_dec_clean(gain);
    let b1 = "      type: Peaking".spec_bytes() + nl();
    let b2 = "      freq: ".spec_bytes() + freq.to_bytes() + nl();
    let b3 = "      bandwidth: ".spec_bytes() + bandwidth.to_bytes() + nl();
    let b4 = "      gain: ".spec_bytes() + gain.to_bytes() + nl();
    lemma_safe_line1("      type: Peaking".spec_bytes());
    lemma_safe_line2("      freq: ".spec_bytes(), freq.to_bytes());
    lemma_safe_line2("      bandwidth: ".spec_bytes(), bandwidth.to_bytes());
    lemma_safe_line2("      gain: ".spec_bytes(), gain.to_bytes());
    lemma_safe_concat(b1, b2);
    lemma_safe_concat(b1 + b2, b3);
    lemma_safe_concat(b1 + b2 + b3, b4);
    assert(yaml_biquad(BiquadParameters::Peaking(PeakingWidth::Bandwidth { freq, bandwidth, gain })) =~= b1 + b2 + b3 + b4);
}

proof fn lemma_safe_biquad_hsfo(freq: Decimal, gain: Decimal)
    requires
        freq.wf(),
        gain.wf(),
    ensures
        safe_block(yaml_biquad(BiquadParameters::HighshelfFO { freq, gain })),
{
    reveal_strlit("      freq: ");
    reveal_strlit("      q: ");
    reveal_strlit("      gain: ");
    reveal_strlit("      bandwidth: ");
    reveal_strlit("\n      q: ");
    reveal_strlit("\n      gain: ");
    reveal_strlit("\n      bandwidth: ");
    reveal_strlit("\n");
    assert(vstd::string::is_ascii("      freq: "));
    assert(vstd::string::is_ascii("      q: "));
    assert(vstd::string::is_ascii("      gain: "));
    assert(vstd::string::is_ascii("      bandwidth: "));
    assert(vstd::string::is_ascii("\n      q: "));
    assert(vstd::string::is_ascii("\n      gain: "));
    assert(vstd::string::is_ascii("\n      bandwidth: "));
    assert(vstd::string::is_ascii("\n"));
    vstd::string::is_ascii_spec_bytes("      freq: ");
    vstd::string::is_ascii_spec_bytes("      q: ");
    vstd::string::is_ascii_spec_bytes("      gain: ");
    vstd::string::is_ascii_spec_bytes("      bandwidth: ");
    vstd::string::is_ascii_spec_bytes("\n      q: ");
    vstd::string::is_ascii_spec_bytes("\n      gain: ");
    vstd::string::is_ascii_spec_bytes("\n      bandwidth: ");
    vstd::string::is_ascii_spec_bytes("\n");
    assert("\n      q: ".spec_bytes() =~= nl() + "      q: ".spec_bytes());
    assert("\n      gain: ".spec_bytes() =~= nl() + "      gain: ".spec_bytes());
    assert("\n      bandwidth: ".spec_bytes() =~= nl() + "      bandwidth: ".spec_bytes());
    assert(clean_text("      freq: ".spec_bytes()));
    assert(clean_text("      q: ".spec_bytes()));
    assert(clean_text("      gain: ".spec_bytes()));
    assert(clean_text("      bandwidth: ".spec_bytes()));

    reveal_strlit("      type: HighshelfFO\n      freq: ");
    reveal_strlit("      type: HighshelfFO");
    assert(vstd::string::is_ascii("      type: HighshelfFO\n      freq: "));
    assert(vstd::string::is_ascii("      type: HighshelfFO"));
    vstd::string::is_ascii_spec_bytes("      type: HighshelfFO\n      freq: ");
    vstd::string::is_ascii_spec_bytes("      type: HighshelfFO");
    assert("      type: HighshelfFO\n      freq: ".spec_bytes()
        =~= "      type: HighshelfFO".spec_bytes() + nl() + "      freq: ".spec_bytes());
    assert(clean_text("      type: HighshelfFO".spec_bytes()));
    lemma_dec_clean(freq);
    lemma_dec_clean(gain);
    let b1 = "      type: HighshelfFO".spec_bytes() + nl();
    let b2 = "      freq: ".spec_bytes() + freq.to_bytes() + nl();
    let b3 = "      gain: ".spec_bytes() + gain.to_bytes() + nl();
    lemma_safe_line1("      type: HighshelfFO".spec_bytes());
    lemma_safe_line2("      freq: ".spec_bytes(), freq.to_bytes());
    lemma_safe_line2("      gain: ".spec_bytes(), gain.to_bytes());
    lemma_safe_concat(b1, b2);
    lemma_safe_concat(b1 + b2, b3);
    assert(yaml_biquad(BiquadParameters::HighshelfFO { freq, gain }) =~= b1 + b2 + b3);
}

proof fn lemma_safe_biquad_lsfo(freq: Decimal, gain: Decimal)
    requires
        freq.wf(),
        gain.wf(),
    ensures
        safe_block(yaml_biquad(BiquadParameters::LowshelfFO { freq, gain })),
{
    reveal_strlit("      freq: ");
    reveal_strlit("      q: ");
    reveal_strlit("      gain: ");
    reveal_strlit("      bandwidth: ");
    reveal_strlit("\n      q: ");
    reveal_strlit("\n      gain: ");
    reveal_strlit("\n      bandwidth: ");
    reveal_strlit("\n");
    assert(vstd::string::is_ascii("      freq: "));
    assert(vstd::string::is_ascii("      q: "));
    assert(vstd::string::is_ascii("      gain: "));
    assert(vstd::string::is_ascii("      bandwidth: "));
    assert(vstd::string::is_ascii("\n      q: "));
    assert(vstd::string::is_ascii("\n      gain: "));
    assert(vstd::string::is_ascii("\n      bandwidth: "));
    assert(vstd::string::is_ascii("\n"));
    vstd::string::is_ascii_spec_bytes("      freq: ");
    vstd::string::is_ascii_spec_bytes("      q: ");
    vstd::string::is_ascii_spec_bytes("      gain: ");
    vstd::string::is_ascii_spec_bytes("      bandwidth: ");
    vstd::string::is_ascii_spec_bytes("\n      q: ");
    vstd::string::is_ascii_spec_bytes("\n      gain: ");
    vstd::string::is_ascii_spec_bytes("\n      bandwidth: ");
    vstd::string::is_ascii_spec_bytes("\n");
    assert("\n      q: ".spec_bytes() =~= nl() + "      q: ".spec_bytes());
    assert("\n      gain: ".spec_bytes() =~= nl() + "      gain: ".spec_bytes());
    assert("\n      bandwidth: ".spec_bytes() =~= nl() + "      bandwidth: ".spec_bytes());
    assert(clean_text("      freq: ".spec_bytes()));
    assert(clean_text("      q: ".spec_bytes()));
    assert(clean_text("      gain: ".spec_bytes()));
    assert(clean_text("      bandwidth: ".spec_bytes()));

    reveal_strlit("      type: LowshelfFO\n      freq: ");
    reveal_strlit("      type: LowshelfFO");
    assert(vstd::string::is_ascii("      type: LowshelfFO\n      freq: "));
    assert(vstd::string::is_ascii("      type: LowshelfFO"));
    vstd::string::is_ascii_spec_bytes("      type: LowshelfFO\n      freq: ");
    vstd::string::is_ascii_spec_bytes("      type: LowshelfFO");
    assert("      type: LowshelfFO\n      freq: ".spec_bytes()
        =~= "      type: LowshelfFO".spec_bytes() + nl() + "      freq: ".spec_bytes());
    assert(clean_text("      type: LowshelfFO".spec_bytes()));
    lemma_dec_clean(freq);
    lemma_dec_clean(gain);
    let b1 = "      type: LowshelfFO".spec_bytes() + nl();
    let b2 = "      freq: ".spec_bytes() + freq.to_bytes() + nl();
    let b3 = "      gain: ".spec_bytes() + gain.to_bytes() + nl();
    lemma_safe_line1("      type: LowshelfFO".spec_bytes());
    lemma_safe_line2("      freq: ".spec_bytes(), freq.to_bytes());
    lemma_safe_line2("      gain: ".spec_bytes(), gain.to_bytes());
    lemma_safe_concat(b1, b2);
    lemma_safe_concat(b1 + b2, b3);
    assert(yaml_biquad(BiquadParameters::LowshelfFO { freq, gain }) =~= b1 + b2 + b3);
}

proof fn lemma_safe_biquad_hpfo(freq: Decimal)
    requires
        freq.wf(),
    ensures
        safe_block(yaml_biquad(BiquadParameters::HighpassFO { freq })),
{
    reveal_strlit("      freq: ");
    reveal_strlit("      q: ");
    reveal_strlit("      gain: ");
    reveal_strlit("      bandwidth: ");
    reveal_strlit("\n      q: ");
    reveal_strlit("\n      gain: ");
    reveal_strlit("\n      bandwidth: ");
    reveal_strlit("\n");
    assert(vstd::string::is_ascii("      freq: "));
    assert(vstd::string::is_ascii("      q: "));
    assert(vstd::string::is_ascii("      gain: "));
    assert(vstd::string::is_ascii("      bandwidth: "));
    assert(vstd::string::is_ascii("\n      q: "));
    assert(vstd::string::is_ascii("\n      gain: "));
    assert(vstd::string::is_ascii("\n      bandwidth: "));
    assert(vstd::string::is_ascii("\n"));
    vstd::string::is_ascii_spec_bytes("      freq: ");
    vstd::string::is_ascii_spec_bytes("      q: ");
    vstd::string::is_ascii_spec_bytes("      gain: ");
    vstd::string::is_ascii_spec_bytes("      bandwidth: ");
    vstd::string::is_ascii_spec_bytes("\n      q: ");
    vstd::string::is_ascii_spec_bytes("\n      gain: ");
    vstd::string::is_ascii_spec_bytes("\n      bandwidth: ");
    vstd::string::is_ascii_spec_bytes("\n");
    assert("\n      q: ".spec_bytes() =~= nl() + "      q: ".spec_bytes());
    assert("\n      gain: ".spec_bytes() =~= nl() + "      gain: ".spec_bytes());
    assert("\n      bandwidth: ".spec_bytes() =~= nl() + "      bandwidth: ".spec_bytes());
    assert(clean_text("      freq: ".spec_bytes()));
    assert(clean_text("      q: ".spec_bytes()));
    assert(clean_text("      gain: ".spec_bytes()));
    assert(clean_text("      bandwidth: ".spec_bytes()));

    reveal_strlit("      type: HighpassFO\n      freq: ");
    reveal_strlit("      type: HighpassFO");
    assert(vstd::string::is_ascii("      type: HighpassFO\n      freq: "));
    assert(vstd::string::is_ascii("      type: HighpassFO"));
    vstd::string::is_ascii_spec_bytes("      type: HighpassFO\n      freq: ");
    vstd::string::is_ascii_spec_bytes("      type: HighpassFO");
    assert("      type: HighpassFO\n      freq: ".spec_bytes()
        =~= "      type: HighpassFO".spec_bytes() + nl() + "      freq: ".spec_bytes());
    assert(clean_text("      type: HighpassFO".spec_bytes()));
    lemma_dec_clean(freq);
    let b1 = "      type: HighpassFO".spec_bytes() + nl();
    let b2 = "      freq: ".spec_bytes() + freq.to_bytes() + nl();
    lemma_safe_line1("      type: HighpassFO".spec_bytes());
    lemma_safe_line2("      freq: ".spec_bytes(), freq.to_bytes());
    lemma_safe_concat(b1, b2);
    assert(yaml_biquad(BiquadParameters::HighpassFO { freq }) =~= b1 + b2);
}

proof fn lemma_safe_biquad_lpfo(freq: Decimal)
    requires
        freq.wf(),
    ensures
        safe_block(yaml_biquad(BiquadParameters::LowpassFO { freq })),
{
    reveal_strlit("      freq: ");
    reveal_strlit("      q: ");
    reveal_strlit("      gain: ");
    reveal_strlit("      bandwidth: ");
    reveal_strlit("\n      q: ");
    reveal_strlit("\n      gain: ");
    reveal_strlit("\n      bandwidth: ");
    reveal_strlit("\n");
    assert(vstd::string::is_ascii("      freq: "));
    assert(vstd::string::is_ascii("      q: "));
    assert(vstd::string::is_ascii("      gain: "));
    assert(vstd::string::is_ascii("      bandwidth: "));
    assert(vstd::string::is_ascii("\n      q: "));
    assert(vstd::string::is_ascii("\n      gain: "));
    assert(vstd::string::is_ascii("\n      bandwidth: "));
    assert(vstd::string::is_ascii("\n"));
    vstd::string::is_ascii_spec_bytes("      freq: ");
    vstd::string::is_ascii_spec_bytes("      q: ");
    vstd::string::is_ascii_spec_bytes("      gain: ");
    vstd::string::is_ascii_spec_bytes("      bandwidth: ");
    vstd::string::is_ascii_spec_bytes("\n      q: ");
    vstd::string::is_ascii_spec_bytes("\n      gain: ");
    vstd::string::is_ascii_spec_bytes("\n      bandwidth: ");
    vstd::string::is_ascii_spec_bytes("\n");
    assert("\n      q: ".spec_bytes() =~= nl() + "      q: ".spec_bytes());
    assert("\n      gain: ".spec_bytes() =~= nl() + "      gain: ".spec_bytes());
    assert("\n      bandwidth: ".spec_bytes() =~= nl() + "      bandwidth: ".spec_bytes());
    assert(clean_text("      freq: ".spec_bytes()));
    assert(clean_text("      q: ".spec_bytes()));
    assert(clean_text("      gain: ".spec_bytes()));
    assert(clean_text("      bandwidth: ".spec_bytes()));

    reveal_strlit("      type: LowpassFO\n      freq: ");
    reveal_strlit("      type: LowpassFO");
    assert(vstd::string::is_ascii("      type: LowpassFO\n      freq: "));
    assert(vstd::string::is_ascii("      type: LowpassFO"));
    vstd::string::is_ascii_spec_bytes("      type: LowpassFO\n      freq: ");
    vstd::string::is_ascii_spec_bytes("      type: LowpassFO");
    assert("      type: LowpassFO\n      freq: ".spec_bytes()
        =~= "      type: LowpassFO".spec_bytes() + nl() + "      freq: ".spec_bytes());
    assert(clean_text("      type: LowpassFO".spec_bytes()));
    lemma_dec_clean(freq);
    let b1 = "      type: LowpassFO".spec_bytes() + nl();
    let b2 = "      freq: ".spec_bytes() + freq.to_bytes() + nl();
    lemma_safe_line1("      type: LowpassFO".spec_bytes());
    lemma_safe_line2("      freq: ".spec_bytes(), freq.to_bytes());
    lemma_safe_concat(b1, b2);
    assert(yaml_biquad(BiquadParameters::LowpassFO { freq }) =~= b1 + b2);
}

/// Every line a band's parameter block prints is safe.
proof fn lemma_safe_yaml_biquad(b: BiquadParameters)
    requires
        crate::configcreation::biquad_wf(b),
    ensures
        safe_block(yaml_biquad(b)),
{
    match b {
        BiquadParameters::Highpass { freq, q } => lemma_safe_biquad_hp(freq, q),
        BiquadParameters::Lowpass { freq, q } => lemma_safe_biquad_lp(freq, q),
        BiquadParameters::Peaking(PeakingWidth::Q { freq, q, gain }) => lemma_safe_biquad_pk_q(
            freq,
            q,
            gain,
        ),
        BiquadParameters::Peaking(PeakingWidth::Bandwidth { freq, bandwidth, gain }) => (
        lemma_safe_biquad_pk_bw(freq, bandwidth, gain)),
        BiquadParameters::HighshelfFO { freq, gain } => lemma_safe_biquad_hsfo(freq, gain),
        BiquadParameters::LowshelfFO { freq, gain } => lemma_safe_biquad_lsfo(freq, gain),
        BiquadParameters::HighpassFO { freq } => lemma_safe_biquad_hpfo(freq),
        BiquadParameters::LowpassFO { freq } => lemma_safe_biquad_lpfo(freq),
    }
}

/// Every line a filter body prints is safe.
proof fn lemma_safe_yaml_filter_body(f: Filter)
    requires
        crate::configcreation::filter_wf(f),
    ensures
        safe_block(yaml_filter_body(f)),
{
    match f {
        Filter::Gain { parameters } => {
            reveal_strlit("    type: Gain\n    parameters:\n      gain: ");
            reveal_strlit("    type: Gain");
            reveal_strlit("    parameters:");
            reveal_strlit("      gain: ");
            reveal_strlit("\n      inverted: ");
            reveal_strlit("      inverted: ");
            reveal_strlit("\n      mute: ");
            reveal_strlit("      mute: ");
            reveal_strlit("\n");
            assert(vstd::string::is_ascii("    type: Gain\n    parameters:\n      gain: "));
            assert(vstd::string::is_ascii("    type: Gain"));
            assert(vstd::string::is_ascii("    parameters:"));
            assert(vstd::string::is_ascii("      gain: "));
            assert(vstd::string::is_ascii("\n      inverted: "));
            assert(vstd::string::is_ascii("      inverted: "));
            assert(vstd::string::is_ascii("\n      mute: "));
            assert(vstd::string::is_ascii("      mute: "));
            assert(vstd::string::is_ascii("\n"));
            vstd::string::is_ascii_spec_bytes("    type: Gain\n    parameters:\n      gain: ");
            vstd::string::is_ascii_spec_bytes("    type: Gain");
            vstd::string::is_ascii_spec_bytes("    parameters:");
            vstd::string::is_ascii_spec_bytes("      gain: ");
            vstd::string::is_ascii_spec_bytes("\n      inverted: ");
            vstd::string::is_ascii_spec_bytes("      inverted: ");
            vstd::string::is_ascii_spec_bytes("\n      mute: ");
            vstd::string::is_ascii_spec_bytes("      mute: ");
            vstd::string::is_ascii_spec_bytes("\n");
            assert("    type: Gain\n    parameters:\n      gain: ".spec_bytes()
                =~= "    type: Gain".spec_bytes() + nl() + "    parameters:".spec_bytes() + nl()
                + "      gain: ".spec_bytes());
            assert("\n      inverted: ".spec_bytes() =~= nl() + "      inverted: ".spec_bytes());
            assert("\n      mute: ".spec_bytes() =~= nl() + "      mute: ".spec_bytes());
            assert(clean_text("    type: Gain".spec_bytes()));
            assert(clean_text("    parameters:".spec_bytes()));
            assert(clean_text("      gain: ".spec_bytes()));
            assert(clean_text("      inverted: ".spec_bytes()));
            assert(clean_text("      mute: ".spec_bytes()));
            lemma_dec_clean(parameters.gain);
            lemma_bool_clean(parameters.inverted);
            lemma_bool_clean(parameters.mute);
            let b1 = "    type: Gain".spec_bytes() + nl();
            let b2 = "    parameters:".spec_bytes() + nl();
            let b3 = "      gain: ".spec_bytes() + parameters.gain.to_bytes() + nl();
            let b4 = "      inverted: ".spec_bytes() + bool_bytes(parameters.inverted) + nl();
            let b5 = "      mute: ".spec_bytes() + bool_bytes(parameters.mute) + nl();
            lemma_safe_line1("    type: Gain".spec_bytes());
            lemma_safe_line1("    parameters:".spec_bytes());
            lemma_safe_line2("      gain: ".spec_bytes(), parameters.gain.to_bytes());
            lemma_safe_line2("      inverted: ".spec_bytes(), bool_bytes(parameters.inverted));
            lemma_safe_line2("      mute: ".spec_bytes(), bool_bytes(parameters.mute));
            lemma_safe_concat(b1, b2);
            lemma_safe_concat(b1 + b2, b3);
            lemma_safe_concat(b1 + b2 + b3, b4);
            lemma_safe_concat(b1 + b2 + b3 + b4, b5);
            assert(yaml_filter_body(f) =~= b1 + b2 + b3 + b4 + b5);
        },
        Filter::Biquad { parameters } => {
            reveal_strlit("    type: Biquad\n    parameters:\n");
            reveal_strlit("    type: Biquad");
            reveal_strlit("    parameters:");
            reveal_strlit("\n");
            assert(vstd::string::is_ascii("    type: Biquad\n    parameters:\n"));
            assert(vstd::string::is_ascii("    type: Biquad"));
            assert(vstd::string::is_ascii("    parameters:"));
            assert(vstd::string::is_ascii("\n"));
            vstd::string::is_ascii_spec_bytes("    type: Biquad\n    parameters:\n");
            vstd::string::is_ascii_spec_bytes("    type: Biquad");
            vstd::string::is_ascii_spec_bytes("    parameters:");
            vstd::string::is_ascii_spec_bytes("\n");
            assert("    type: Biquad\n    parameters:\n".spec_bytes()
                =~= "    type: Biquad".spec_bytes() + nl() + "    parameters:".spec_bytes()
                + nl());
            assert(clean_text("    type: Biquad".spec_bytes()));
            assert(clean_text("    parameters:".spec_bytes()));
            let b1 = "    type: Biquad".spec_bytes() + nl();
            let b2 = "    parameters:".spec_bytes() + nl();
            let b3 = yaml_biquad(parameters);
            lemma_safe_line1("    type: Biquad".spec_bytes());
            lemma_safe_line1("    parameters:".spec_bytes());
            lemma_safe_yaml_biquad(parameters);
            lemma_safe_concat(b1, b2);
            lemma_safe_concat(b1 + b2, b3);
            assert(yaml_filter_body(f) =~= b1 + b2 + b3);
        },
    }
}

/// Every line a named filter entry prints is safe.
proof fn lemma_safe_yaml_filter_entry(e: NamedFilter)
    requires
        crate::configcreation::filter_wf(e.filter),
        crate::text::plain_name(e.name@),
    ensures
        safe_block(yaml_filter_entry(e)),
{
    reveal_strlit("  ");
    reveal_strlit(":\n");
    reveal_strlit(":");
    reveal_strlit("\n");
    assert(vstd::string::is_ascii("  "));
    assert(vstd::string::is_ascii(":\n"));
    assert(vstd::string::is_ascii(":"));
    assert(vstd::string::is_ascii("\n"));
    vstd::string::is_ascii_spec_bytes("  ");
    vstd::string::is_ascii_spec_bytes(":\n");
    vstd::string::is_ascii_spec_bytes(":");
    vstd::string::is_ascii_spec_bytes("\n");
    assert(":\n".spec_bytes() =~= ":".spec_bytes() + nl());
    assert(clean_text("  ".spec_bytes()));
    assert(clean_text(":".spec_bytes()));
    lemma_name_clean(e.name@);
    let b1 = "  ".spec_bytes() + e.name@ + ":".spec_bytes() + nl();
    let b2 = yaml_filter_body(e.filter);
    lemma_safe_line3("  ".spec_bytes(), e.name@, ":".spec_bytes());
    lemma_safe_yaml_filter_body(e.filter);
    lemma_safe_concat(b1, b2);
    assert(yaml_filter_entry(e) =~= b1 + b2);
}

/// Every line the filter block prints is safe.
proof fn lemma_safe_yaml_filter_entries(es: Seq<NamedFilter>)
    requires
        forall|i: int|
            0 <= i < es.len() ==> crate::configcreation::filter_wf((#[trigger] es[i]).filter)
                && crate::text::plain_name(es[i].name@),
    ensures
        safe_block(yaml_filter_entries(es)),
    decreases es.len(),
{
    if es.len() == 0 {
        lemma_safe_empty();
        assert(yaml_filter_entries(es) == Seq::<u8>::empty());
    } else {
        lemma_safe_yaml_filter_entry(es[0]);
        let t = es.drop_first();
        assert forall|i: int|
            0 <= i < t.len() implies crate::configcreation::filter_wf((#[trigger] t[i]).filter)
            && crate::text::plain_name(t[i].name@) by {
            assert(t[i] == es[i + 1]);
        }
        lemma_safe_yaml_filter_entries(t);
        lemma_safe_concat(yaml_filter_entry(es[0]), yaml_filter_entries(t));
    }
}

/// Every line a pipeline step prints is safe.
proof fn lemma_safe_yaml_step(s: PipelineStep)
    requires
        match s {
            PipelineStep::Mixer { name } => crate::text::plain_name(name@),
            PipelineStep::Filter { channel, names } => forall|j: int|
                0 <= j < names@.len() ==> crate::text::plain_name((#[trigger] names@[j])@),
        },
    ensures
        safe_block(yaml_step(s)),
{
    reveal_strlit("\n");
    assert(vstd::string::is_ascii("\n"));
    vstd::string::is_ascii_spec_bytes("\n");
    match s {
        PipelineStep::Mixer { name } => {
            reveal_strlit("- type: Mixer\n  name: ");
            reveal_strlit("- type: Mixer");
            reveal_strlit("  name: ");
            assert(vstd::string::is_ascii("- type: Mixer\n  name: "));
            assert(vstd::string::is_ascii("- type: Mixer"));
            assert(vstd::string::is_ascii("  name: "));
            vstd::string::is_ascii_spec_bytes("- type: Mixer\n  name: ");
            vstd::string::is_ascii_spec_bytes("- type: Mixer");
            vstd::string::is_ascii_spec_bytes("  name: ");
            assert("- type: Mixer\n  name: ".spec_bytes() =~= "- type: Mixer".spec_bytes() + nl()
                + "  name: ".spec_bytes());
            assert(clean_text("- type: Mixer".spec_bytes()));
            assert(clean_text("  name: ".spec_bytes()));
            lemma_name_clean(name@);
            let b1 = "- type: Mixer".spec_bytes() + nl();
            let b2 = "  name: ".spec_bytes() + name@ + nl();
            lemma_safe_line1("- type: Mixer".spec_bytes());
            lemma_safe_line2("  name: ".spec_bytes(), name@);
            lemma_safe_concat(b1, b2);
            assert(yaml_step(s) =~= b1 + b2);
        },
        PipelineStep::Filter { channel, names } => {
            reveal_strlit("- type: Filter\n  channel: ");
            reveal_strlit("- type: Filter");
            reveal_strlit("  channel: ");
            reveal_strlit("\n  names:\n");
            reveal_strlit("  names:");
            assert(vstd::string::is_ascii("- type: Filter\n  channel: "));
            assert(vstd::string::is_ascii("- type: Filter"));
            assert(vstd::string::is_ascii("  channel: "));
            assert(vstd::string::is_ascii("\n  names:\n"));
            assert(vstd::string::is_ascii("  names:"));
            vstd::string::is_ascii_spec_bytes("- type: Filter\n  channel: ");
            vstd::string::is_ascii_spec_bytes("- type: Filter");
            vstd::string::is_ascii_spec_bytes("  channel: ");
            vstd::string::is_ascii_spec_bytes("\n  names:\n");
            vstd::string::is_ascii_spec_bytes("  names:");
            assert("- type: Filter\n  channel: ".spec_bytes() =~= "- type: Filter".spec_bytes()
                + nl() + "  channel: ".spec_bytes());
            assert("\n  names:\n".spec_bytes() =~= nl() + "  names:".spec_bytes() + nl());
            assert(clean_text("- type: Filter".spec_bytes()));
            assert(clean_text("  channel: ".spec_bytes()));
            assert(clean_text("  names:".spec_bytes()));
            lemma_usize_clean(channel);
            let b1 = "- type: Filter".spec_bytes() + nl();
            let b2 = "  channel: ".spec_bytes() + usize_bytes(channel) + nl();
            let b3 = "  names:".spec_bytes() + nl();
            let b4 = yaml_step_names(names@);
            lemma_safe_line1("- type: Filter".spec_bytes());
            lemma_safe_line2("  channel: ".spec_bytes(), usize_bytes(channel));
            lemma_safe_line1("  names:".spec_bytes());
            lemma_safe_yaml_step_names(names@);
            lemma_safe_concat(b1, b2);
            lemma_safe_concat(b1 + b2, b3);
            lemma_safe_concat(b1 + b2 + b3, b4);
            assert(yaml_step(s) =~= b1 + b2 + b3 + b4);
        },
    }
}

/// Every line a step's name list prints is safe.
proof fn lemma_safe_yaml_step_names(ns: Seq<Vec<u8>>)
    requires
        forall|j: int| 0 <= j < ns.len() ==> crate::text::plain_name((#[trigger] ns[j])@),
    ensures
        safe_block(yaml_step_names(ns)),
    decreases ns.len(),
{
    if ns.len() == 0 {
        lemma_safe_empty();
        assert(yaml_step_names(ns) == Seq::<u8>::empty());
    } else {
        reveal_strlit("  - ");
        reveal_strlit("\n");
        assert(vstd::string::is_ascii("  - "));
        assert(vstd::string::is_ascii("\n"));
        vstd::string::is_ascii_spec_bytes("  - ");
        vstd::string::is_ascii_spec_bytes("\n");
        assert(clean_text("  - ".spec_bytes()));
        lemma_name_clean(ns[0]@);
        lemma_safe_line2("  - ".spec_bytes(), ns[0]@);
        assert(yaml_step_name(ns[0]@) =~= "  - ".spec_bytes() + ns[0]@ + nl());
        let t = ns.drop_first();
        assert forall|j: int| 0 <= j < t.len() implies crate::text::plain_name(
            (#[trigger] t[j])@,
        ) by {
            assert(t[j] == ns[j + 1]);
        }
        lemma_safe_yaml_step_names(t);
        lemma_safe_concat(yaml_step_name(ns[0]@), yaml_step_names(t));
    }
}

/// Every line the pipeline block prints is safe.
proof fn lemma_safe_yaml_steps(ss: Seq<PipelineStep>)
    requires
        forall|i: int|
            0 <= i < ss.len() ==> match #[trigger] ss[i] {
                PipelineStep::Mixer { name } => crate::text::plain_name(name@),
                PipelineStep::Filter { channel, names } => forall|j: int|
                    0 <= j < names@.len() ==> crate::text::plain_name((#[trigger] names@[j])@),
            },
    ensures
        safe_block(yaml_steps(ss)),
    decreases ss.len(),
{
    if ss.len() == 0 {
        lemma_safe_empty();
        assert(yaml_steps(ss) == Seq::<u8>::empty());
    } else {
        lemma_safe_yaml_step(ss[0]);
        let t = ss.drop_first();
        assert forall|i: int|
            0 <= i < t.len() implies match #[trigger] t[i] {
            PipelineStep::Mixer { name } => crate::text::plain_name(name@),
            PipelineStep::Filter { channel, names } => forall|j: int|
                0 <= j < names@.len() ==> crate::text::plain_name((#[trigger] names@[j])@),
        } by {
            assert(t[i] == ss[i + 1]);
        }
        lemma_safe_yaml_steps(t);
        lemma_safe_concat(yaml_step(ss[0]), yaml_steps(t));
    }
}


/// Every line a whole configuration prints is safe.
proof fn lemma_safe_yaml_config(c: Configuration)
    requires
        c.wf(),
        c.refs_valid(),
    ensures
        safe_block(yaml_config(c)),
{
    reveal_strlit("mixers:\n");
    reveal_strlit("mixers:");
    reveal_strlit("filters:\n");
    reveal_strlit("filters:");
    reveal_strlit("pipeline:\n");
    reveal_strlit("pipeline:");
    reveal_strlit("\n");
    assert(vstd::string::is_ascii("mixers:\n"));
    assert(vstd::string::is_ascii("mixers:"));
    assert(vstd::string::is_ascii("filters:\n"));
    assert(vstd::string::is_ascii("filters:"));
    assert(vstd::string::is_ascii("pipeline:\n"));
    assert(vstd::string::is_ascii("pipeline:"));
    assert(vstd::string::is_ascii("\n"));
    vstd::string::is_ascii_spec_bytes("mixers:\n");
    vstd::string::is_ascii_spec_bytes("mixers:");
    vstd::string::is_ascii_spec_bytes("filters:\n");
    vstd::string::is_ascii_spec_bytes("filters:");
    vstd::string::is_ascii_spec_bytes("pipeline:\n");
    vstd::string::is_ascii_spec_bytes("pipeline:");
    vstd::string::is_ascii_spec_bytes("\n");
    assert("mixers:\n".spec_bytes() =~= "mixers:".spec_bytes() + nl());
    assert("filters:\n".spec_bytes() =~= "filters:".spec_bytes() + nl());
    assert("pipeline:\n".spec_bytes() =~= "pipeline:".spec_bytes() + nl());
    assert(clean_text("mixers:".spec_bytes()));
    assert(clean_text("filters:".spec_bytes()));
    assert(clean_text("pipeline:".spec_bytes()));
    // every name a step refers to is one of the configuration's own
    // plain names
    assert forall|i: int|
        0 <= i < c.pipeline@.len() implies match #[trigger] c.pipeline@[i] {
        PipelineStep::Mixer { name } => crate::text::plain_name(name@),
        PipelineStep::Filter { channel, names } => forall|j: int|
            0 <= j < names@.len() ==> crate::text::plain_name((#[trigger] names@[j])@),
    } by {
        match c.pipeline@[i] {
            PipelineStep::Mixer { name } => {
                assert(crate::configcreation::contains_name(
                    crate::configcreation::mixer_names(c.mixers@),
                    name@,
                ));
                let t = choose|t: int|
                    0 <= t < crate::configcreation::mixer_names(c.mixers@).len() && (
                    #[trigger] crate::configcreation::mixer_names(c.mixers@)[t]) == name@;
                assert(crate::configcreation::mixer_names(c.mixers@)[t] == c.mixers@[t].name@);
                assert(crate::text::plain_name(c.mixers@[t].name@));
            },
            PipelineStep::Filter { channel, names } => {
                assert forall|j: int| 0 <= j < names@.len() implies crate::text::plain_name(
                    (#[trigger] names@[j])@,
                ) by {
                    assert(crate::configcreation::contains_name(
                        crate::configcreation::filter_names(c.filters@),
                        names@[j]@,
                    ));
                    let t = choose|t: int|
                        0 <= t < crate::configcreation::filter_names(c.filters@).len() && (
                        #[trigger] crate::configcreation::filter_names(c.filters@)[t]) == names@[
                            j
                        ]@;
                    assert(crate::configcreation::filter_names(c.filters@)[t] == c.filters@[
                        t
                    ].name@);
                    assert(crate::text::plain_name(c.filters@[t].name@));
                }
            },
        }
    }
    lemma_safe_yaml_mixer_entries(c.mixers@);
    lemma_safe_yaml_filter_entries(c.filters@);
    lemma_safe_yaml_steps(c.pipeline@);
    lemma_safe_line1("mixers:".spec_bytes());
    lemma_safe_line1("filters:".spec_bytes());
    lemma_safe_line1("pipeline:".spec_bytes());
    let bm = if c.mixers@.len() > 0 {
        "mixers:\n".spec_bytes() + yaml_mixer_entries(c.mixers@)
    } else {
        Seq::<u8>::empty()
    };
    let bf = "filters:\n".spec_bytes() + yaml_filter_entries(c.filters@);
    let bp = "pipeline:\n".spec_bytes() + yaml_steps(c.pipeline@);
    assert(safe_block(bm)) by {
        if c.mixers@.len() > 0 {
            assert(bm =~= ("mixers:".spec_bytes() + nl()) + yaml_mixer_entries(c.mixers@));
            lemma_safe_concat("mixers:".spec_bytes() + nl(), yaml_mixer_entries(c.mixers@));
        } else {
            lemma_safe_empty();
        }
    }
    assert(safe_block(bf)) by {
        assert(bf =~= ("filters:".spec_bytes() + nl()) + yaml_filter_entries(c.filters@));
        lemma_safe_concat("filters:".spec_bytes() + nl(), yaml_filter_entries(c.filters@));
    }
    assert(safe_block(bp)) by {
        assert(bp =~= ("pipeline:".spec_bytes() + nl()) + yaml_steps(c.pipeline@));
        lemma_safe_concat("pipeline:".spec_bytes() + nl(), yaml_steps(c.pipeline@));
    }
    lemma_safe_concat(bm, bf);
    lemma_safe_concat(bm + bf, bp);
    assert(yaml_config(c) =~= bm + bf + bp);
}

/// Free of carriage returns.
pub open spec fn no_cr(s: Seq<u8>) -> bool {
    forall|i: int| 0 <= i < s.len() ==> s[i] != 13
}

/// Every line of a whole-line sequence that survives stripping is safe.
proof fn lemma_safe_kept(ls: Seq<Seq<u8>>)
    requires
        forall|i: int| 0 <= i < ls.len() ==> clean_text(#[trigger] ls[i]),
    ensures
        safe_block(kept_lines(ls)),
    decreases ls.len(),
{
    if ls.len() == 0 {
        lemma_safe_empty();
        assert(kept_lines(ls) == Seq::<u8>::empty());
    } else {
        let t = ls.drop_first();
        assert forall|i: int| 0 <= i < t.len() implies clean_text(#[trigger] t[i]) by {
            assert(t[i] == ls[i + 1]);
        }
        lemma_safe_kept(t);
        if ls[0] == marker() {
            assert(kept_lines(ls) == kept_lines(t));
        } else {
            assert(clean_text(ls[0]));
            lemma_safe_line(ls[0]);
            lemma_safe_concat(ls[0] + nl(), kept_lines(t));
            assert(kept_lines(ls) =~= (ls[0] + nl()) + kept_lines(t)) by {
                lemma_nl_bytes();
                assert(kept_lines(ls) == ls[0] + "\n".spec_bytes() + kept_lines(t));
            }
        }
    }
}

/// Stripping a carriage-return-free fragment yields a safe block.
proof fn lemma_safe_stripped(s: Seq<u8>)
    requires
        no_cr(s),
    ensures
        safe_block(stripped_fragment(s)),
{
    crate::text::lemma_split_seq_wf(s, 10);
    crate::text::lemma_split_free_of(s, 10, 13);
    let raw = crate::text::split_seq(s, 10);
    let kept = if raw.last().len() == 0 {
        raw.drop_last()
    } else {
        raw
    };
    let ls = text_lines(s);
    assert(ls =~= kept.map_values(|l: Seq<u8>| crate::text::drop_cr(l)));
    assert forall|i: int| 0 <= i < ls.len() implies clean_text(#[trigger] ls[i]) by {
        assert(ls[i] == crate::text::drop_cr(kept[i]));
        assert(kept[i] == raw[i]);
        assert forall|j: int| 0 <= j < ls[i].len() implies #[trigger] ls[i][j] != 10 && ls[i][j]
            != 13 by {
            assert(ls[i][j] == raw[i][j]);
        }
    }
    lemma_safe_kept(ls);
}

/// The emitted document holds exactly one document marker: its first
/// line is the marker, and no later line is.
pub proof fn lemma_document_single_marker(c: Configuration, header: Seq<u8>, devices: Seq<u8>)
    requires
        c.wf(),
        c.refs_valid(),
        no_cr(header),
        no_cr(devices),
    ensures
        text_lines(document_of(c, header, devices)).len() > 0,
        text_lines(document_of(c, header, devices))[0] == marker(),
        forall|i: int|
            1 <= i < text_lines(document_of(c, header, devices)).len() ==> #[trigger] text_lines(
                document_of(c, header, devices),
            )[i] != marker(),
{
    lemma_nl_bytes();
    reveal_strlit("---\n");
    assert(vstd::string::is_ascii("---\n"));
    vstd::string::is_ascii_spec_bytes("---\n");
    let head = "---\n".spec_bytes();
    assert(head =~= marker() + nl());
    // the head is exactly one marker line
    assert forall|i: int| 0 <= i < 3 implies head[i] != 10 by {}
    assert(head[3] == 10);
    crate::text::lemma_split_seq_step(head, 10, 3);
    assert(head.take(3) =~= marker());
    assert(head.skip(4) =~= Seq::<u8>::empty());
    assert(crate::text::split_seq(Seq::<u8>::empty(), 10) == seq![Seq::<u8>::empty()]);
    let raw_head = crate::text::split_seq(head, 10);
    assert(raw_head =~= seq![marker()] + seq![Seq::<u8>::empty()]);
    assert(raw_head.last().len() == 0);
    assert(raw_head.drop_last() =~= seq![marker()]);
    assert(crate::text::drop_cr(marker()) == marker()) by {
        assert(marker()[2] != 13);
    }
    assert(text_lines(head) =~= seq![marker()]);
    // everything after the head is safe
    lemma_safe_stripped(header);
    lemma_safe_stripped(devices);
    lemma_safe_yaml_config(c);
    let rest = stripped_fragment(header) + stripped_fragment(devices) + yaml_config(c);
    lemma_safe_concat(stripped_fragment(header), stripped_fragment(devices));
    lemma_safe_concat(stripped_fragment(header) + stripped_fragment(devices), yaml_config(c));
    assert(document_of(c, header, devices) =~= head + rest);
    crate::text::lemma_text_lines_concat(head, rest);
    let ls = text_lines(document_of(c, header, devices));
    assert(ls =~= text_lines(head) + text_lines(rest));
    assert(ls[0] == marker());
    assert forall|i: int| 1 <= i < ls.len() implies #[trigger] ls[i] != marker() by {
        assert(ls[i] == text_lines(rest)[i - 1]);
    }
}

} // verus!
