//! The routing of a synth patch: which generator feeds which, and which
//! source modulates which target. Each generator, LFO and modulation
//! carries its sound settings as a value of a type parameter.

use vstd::prelude::*;

verus! {

/// Generator waveforms; a PCM waveform carries its sample data, if loaded.
pub enum Waveform<D> {
    Sawtooth,
    Pulse,
    Triangle,
    Sine,
    Hold,
    Noise,
    Pcm(Option<D>),
}

impl<D> Waveform<D> {
    /// Returns true if this waveform makes use of the `tone` control.
    pub fn uses_tone(&self) -> (r: bool)
        ensures
            r == (self is Pulse || self is Noise),
    {
        matches!(self, Self::Pulse | Self::Noise)
    }

    /// Returns true if this waveform makes uses of frequency controls.
    pub fn uses_freq(&self) -> (r: bool)
        ensures
            r == !(self is Noise),
    {
        !matches!(self, Self::Noise)
    }

    /// Check whether this waveform can use oversampling.
    pub fn uses_oversampling(&self) -> (r: bool)
        ensures
            r == !(self is Hold || self is Noise || self is Pcm),
    {
        !matches!(*self, Waveform::Hold | Waveform::Noise | Waveform::Pcm(_))
    }
}

/// Where a generator's output goes: mixed into the output of generator
/// `n` (or the patch output for 0), or amplitude-, ring- or frequency-
/// modulating generator `n`.
#[derive(Clone, Copy, PartialEq, Eq, Debug, Structural)]
pub enum OscOutput {
    Mix(usize),
    AM(usize),
    RM(usize),
    FM(usize),
}

/// The generator an output refers to.
pub open spec fn output_index(o: OscOutput) -> usize {
    match o {
        OscOutput::Mix(n) => n,
        OscOutput::AM(n) => n,
        OscOutput::RM(n) => n,
        OscOutput::FM(n) => n,
    }
}

/// `o` with its generator index replaced by `n`.
pub open spec fn with_output_index(o: OscOutput, n: usize) -> OscOutput {
    match o {
        OscOutput::Mix(_) => OscOutput::Mix(n),
        OscOutput::AM(_) => OscOutput::AM(n),
        OscOutput::RM(_) => OscOutput::RM(n),
        OscOutput::FM(_) => OscOutput::FM(n),
    }
}

/// The output choices of the generator at `index`: mixing into any
/// earlier generator, and every kind of modulation of the one just before.
pub open spec fn output_choices(index: nat) -> Seq<OscOutput>
    decreases index,
{
    if index == 0 {
        seq![OscOutput::Mix(0)]
    } else if index == 1 {
        seq![OscOutput::Mix(0), OscOutput::AM(0), OscOutput::RM(0), OscOutput::FM(0)]
    } else {
        let i = (index - 1) as usize;
        let earlier = Seq::new((index - 1) as nat, |k: int| OscOutput::Mix(k as usize));
        earlier + seq![OscOutput::Mix(i), OscOutput::AM(i), OscOutput::RM(i), OscOutput::FM(i)]
    }
}

impl OscOutput {
    /// Returns valid choices for a generator at `index`.
    pub fn choices(index: usize) -> (r: Vec<OscOutput>)
        requires
            index < usize::MAX,
        ensures
            r@ == output_choices(index as nat),
    {
        let mut v: Vec<OscOutput> = Vec::new();
        if index == 0 {
            v.push(OscOutput::Mix(0));
            assert(v@ =~= output_choices(0));
            return v;
        }
        let mut i: usize = 0;
        while i + 1 < index
            invariant
                index >= 1,
                i + 1 <= index,
                v@ == Seq::new(i as nat, |k: int| OscOutput::Mix(k as usize)),
            decreases index - i,
        {
            v.push(OscOutput::Mix(i));
            assert(v@ =~= Seq::new((i + 1) as nat, |k: int| OscOutput::Mix(k as usize)));
            i = i + 1;
        }
        v.push(OscOutput::Mix(i));
        v.push(OscOutput::AM(i));
        v.push(OscOutput::RM(i));
        v.push(OscOutput::FM(i));
        assert(v@ =~= output_choices(index as nat));
        v
    }
}

/// Modulation sources.
#[derive(Clone, Copy, PartialEq, Eq, Debug, Structural)]
pub enum ModSource {
    Pitch,
    Pressure,
    Modulation,
    Random,
    Envelope(usize),
    LFO(usize),
}

/// Modulation destinations.
#[derive(Clone, Copy, PartialEq, Eq, Debug, Structural)]
pub enum ModTarget {
    Gain,
    Pan,
    Pitch,
    FinePitch,
    Level(usize),
    OscPitch(usize),
    OscFinePitch(usize),
    Tone(usize),
    FilterCutoff(usize),
    FilterQ(usize),
    EnvScale(usize),
    LFORate(usize),
    ModDepth(usize),
    /// Distortion. Inaccurate name for legacy reasons.
    ClipGain,
}

/// The generator a target belongs to, if any.
pub open spec fn osc_of(t: ModTarget) -> Option<usize> {
    match t {
        ModTarget::Level(n) => Some(n),
        ModTarget::OscPitch(n) => Some(n),
        ModTarget::OscFinePitch(n) => Some(n),
        ModTarget::Tone(n) => Some(n),
        _ => None,
    }
}

/// The filter a target belongs to, if any.
pub open spec fn filter_of(t: ModTarget) -> Option<usize> {
    match t {
        ModTarget::FilterCutoff(n) => Some(n),
        ModTarget::FilterQ(n) => Some(n),
        _ => None,
    }
}

impl ModTarget {
    /// Returns true if modulations should be summed rather than multiplied.
    pub fn is_additive(&self) -> (r: bool)
        ensures
            r == !(self is Gain || self is Level),
    {
        !matches!(*self, Self::Gain | Self::Level(_))
    }

    /// Returns the generator index, if any.
    pub fn osc(&self) -> (r: Option<usize>)
        ensures
            r == osc_of(*self),
    {
        match *self {
            Self::Level(n) | Self::OscPitch(n) | Self::OscFinePitch(n) | Self::Tone(n) => Some(n),
            _ => None,
        }
    }

    /// Returns the filter index, if any.
    pub fn filter(&self) -> (r: Option<usize>)
        ensures
            r == filter_of(*self),
    {
        match *self {
            Self::FilterCutoff(i) | Self::FilterQ(i) => Some(i),
            _ => None,
        }
    }
}

/// A generator: its waveform, where its output goes, and its other
/// settings.
pub struct Oscillator<O, D> {
    pub settings: O,
    pub waveform: Waveform<D>,
    pub output: OscOutput,
}

/// A low-frequency oscillator: its waveform and its other settings.
pub struct Lfo<L, D> {
    pub settings: L,
    pub waveform: Waveform<D>,
}

/// A modulation from a source to a target, with its depth setting.
pub struct Modulation<M> {
    pub source: ModSource,
    pub target: ModTarget,
    pub depth: M,
}

/// The routing of a patch: generators, filters, envelopes, LFOs and the
/// modulation matrix.
pub struct Patch<O, L, M, F, E, D> {
    pub filters: Vec<F>,
    pub oscs: Vec<Oscillator<O, D>>,
    pub envs: Vec<E>,
    pub lfos: Vec<Lfo<L, D>>,
    pub mod_matrix: Vec<Modulation<M>>,
}

/// An index after the element at `i` is removed from its list.
pub open spec fn shift_index(n: usize, i: usize) -> usize {
    if n > i {
        (n - 1) as usize
    } else {
        n
    }
}

/// The kinds of patch element that a removal renumbers.
#[derive(Clone, Copy, PartialEq, Eq, Debug, Structural)]
enum Part {
    Osc,
    Filter,
    Env,
    Lfo,
    Mod,
}

/// Whether a modulation refers to element `i` of the removed part.
spec fn refers_to(m_source: ModSource, m_target: ModTarget, part: Part, i: usize) -> bool {
    match part {
        Part::Osc => osc_of(m_target) == Some(i),
        Part::Filter => filter_of(m_target) == Some(i),
        Part::Env => m_source == ModSource::Envelope(i),
        Part::Lfo => m_source == ModSource::LFO(i) || m_target == ModTarget::LFORate(i),
        Part::Mod => m_target == ModTarget::ModDepth(i),
    }
}

/// A modulation source after element `i` of `part` is removed.
pub open spec fn source_after(s: ModSource, env_removed: bool, lfo_removed: bool, i: usize) -> ModSource {
    match s {
        ModSource::Envelope(n) => if env_removed { ModSource::Envelope(shift_index(n, i)) } else { s },
        ModSource::LFO(n) => if lfo_removed { ModSource::LFO(shift_index(n, i)) } else { s },
        _ => s,
    }
}

/// A modulation target after generator `i` is removed.
pub open spec fn target_after_osc_removal(t: ModTarget, i: usize) -> ModTarget {
    match t {
        ModTarget::Level(n) => ModTarget::Level(shift_index(n, i)),
        ModTarget::OscPitch(n) => ModTarget::OscPitch(shift_index(n, i)),
        ModTarget::OscFinePitch(n) => ModTarget::OscFinePitch(shift_index(n, i)),
        ModTarget::Tone(n) => ModTarget::Tone(shift_index(n, i)),
        _ => t,
    }
}

/// A modulation target after filter `i` is removed.
pub open spec fn target_after_filter_removal(t: ModTarget, i: usize) -> ModTarget {
    match t {
        ModTarget::FilterCutoff(n) => ModTarget::FilterCutoff(shift_index(n, i)),
        ModTarget::FilterQ(n) => ModTarget::FilterQ(shift_index(n, i)),
        _ => t,
    }
}

/// A modulation target after LFO `i` is removed.
pub open spec fn target_after_lfo_removal(t: ModTarget, i: usize) -> ModTarget {
    match t {
        ModTarget::LFORate(n) => ModTarget::LFORate(shift_index(n, i)),
        _ => t,
    }
}

/// A modulation target after modulation `i` is removed.
pub open spec fn target_after_mod_removal(t: ModTarget, i: usize) -> ModTarget {
    match t {
        ModTarget::ModDepth(n) => ModTarget::ModDepth(shift_index(n, i)),
        _ => t,
    }
}

/// The modulation `m` after element `i` of `part` is removed: gone if it
/// refers to that element, renumbered otherwise.
spec fn mod_after<M>(m: Modulation<M>, part: Part, i: usize) -> Option<Modulation<M>> {
    if refers_to(m.source, m.target, part, i) {
        None
    } else {
        Some(Modulation {
            source: source_after(m.source, part == Part::Env, part == Part::Lfo, i),
            target: match part {
                Part::Osc => target_after_osc_removal(m.target, i),
                Part::Filter => target_after_filter_removal(m.target, i),
                Part::Lfo => target_after_lfo_removal(m.target, i),
                Part::Mod => target_after_mod_removal(m.target, i),
                Part::Env => m.target,
            },
            depth: m.depth,
        })
    }
}

/// The modulation matrix after generator `i` is removed.
pub open spec fn mods_after_osc_removal<M>(mods: Seq<Modulation<M>>, i: usize) -> Seq<Modulation<M>> {
    mods.filter_map(|m: Modulation<M>| if osc_of(m.target) == Some(i) {
        None
    } else {
        Some(Modulation { source: m.source, target: target_after_osc_removal(m.target, i), depth: m.depth })
    })
}

/// The modulation matrix after filter `i` is removed.
pub open spec fn mods_after_filter_removal<M>(mods: Seq<Modulation<M>>, i: usize) -> Seq<Modulation<M>> {
    mods.filter_map(|m: Modulation<M>| if filter_of(m.target) == Some(i) {
        None
    } else {
        Some(Modulation { source: m.source, target: target_after_filter_removal(m.target, i), depth: m.depth })
    })
}

/// The modulation matrix after envelope `i` is removed.
pub open spec fn mods_after_env_removal<M>(mods: Seq<Modulation<M>>, i: usize) -> Seq<Modulation<M>> {
    mods.filter_map(|m: Modulation<M>| if m.source == ModSource::Envelope(i) {
        None
    } else {
        Some(Modulation { source: source_after(m.source, true, false, i), target: m.target, depth: m.depth })
    })
}

/// The modulation matrix after LFO `i` is removed.
pub open spec fn mods_after_lfo_removal<M>(mods: Seq<Modulation<M>>, i: usize) -> Seq<Modulation<M>> {
    mods.filter_map(|m: Modulation<M>| if m.source == ModSource::LFO(i) || m.target == ModTarget::LFORate(i) {
        None
    } else {
        Some(Modulation { source: source_after(m.source, false, true, i), target: target_after_lfo_removal(m.target, i), depth: m.depth })
    })
}

/// The modulation matrix after modulation `i` is removed (and with it
/// every modulation of its depth).
pub open spec fn mods_after_mod_removal<M>(mods: Seq<Modulation<M>>, i: usize) -> Seq<Modulation<M>> {
    mods.remove(i as int).filter_map(|m: Modulation<M>| if m.target == ModTarget::ModDepth(i) {
        None
    } else {
        Some(Modulation { source: m.source, target: target_after_mod_removal(m.target, i), depth: m.depth })
    })
}

/// The matrix that `rebuild_mods` produces for `part`.
spec fn mods_after<M>(mods: Seq<Modulation<M>>, part: Part, i: usize) -> Seq<Modulation<M>> {
    mods.filter_map(|m: Modulation<M>| mod_after(m, part, i))
}

/// Drops the modulations that refer to element `i` of `part` and renumbers
/// the rest.
fn rebuild_mods<M>(mods: &mut Vec<Modulation<M>>, part: Part, i: usize)
    ensures
        final(mods)@ == mods_after(old(mods)@, part, i),
{
    let ghost orig = mods@;
    let mut rest: Vec<Modulation<M>> = Vec::new();
    core::mem::swap(&mut rest, mods);
    let ghost mut k: int = 0;
    while rest.len() > 0
        invariant
            0 <= k <= orig.len(),
            rest@ == orig.skip(k),
            mods@ == mods_after(orig.take(k), part, i),
        decreases rest.len(),
    {
        let m = rest.remove(0);
        proof {
            assert(m == orig[k]);
            assert(orig.take(k + 1).drop_last() =~= orig.take(k));
            assert(orig.take(k + 1).last() == m);
        }
        let drop = match part {
            Part::Osc => m.target.osc() == Some(i),
            Part::Filter => m.target.filter() == Some(i),
            Part::Env => m.source == ModSource::Envelope(i),
            Part::Lfo => m.source == ModSource::LFO(i) || m.target == ModTarget::LFORate(i),
            Part::Mod => m.target == ModTarget::ModDepth(i),
        };
        if !drop {
            let source = match m.source {
                ModSource::Envelope(n) if part == Part::Env && n > i => ModSource::Envelope(n - 1),
                ModSource::LFO(n) if part == Part::Lfo && n > i => ModSource::LFO(n - 1),
                s => s,
            };
            let target = match (part, m.target) {
                (Part::Osc, ModTarget::Level(n)) if n > i => ModTarget::Level(n - 1),
                (Part::Osc, ModTarget::OscPitch(n)) if n > i => ModTarget::OscPitch(n - 1),
                (Part::Osc, ModTarget::OscFinePitch(n)) if n > i => ModTarget::OscFinePitch(n - 1),
                (Part::Osc, ModTarget::Tone(n)) if n > i => ModTarget::Tone(n - 1),
                (Part::Filter, ModTarget::FilterCutoff(n)) if n > i => ModTarget::FilterCutoff(n - 1),
                (Part::Filter, ModTarget::FilterQ(n)) if n > i => ModTarget::FilterQ(n - 1),
                (Part::Lfo, ModTarget::LFORate(n)) if n > i => ModTarget::LFORate(n - 1),
                (Part::Mod, ModTarget::ModDepth(n)) if n > i => ModTarget::ModDepth(n - 1),
                (_, t) => t,
            };
            mods.push(Modulation { source, target, depth: m.depth });
        }
        proof {
            k = k + 1;
            assert(rest@ =~= orig.skip(k));
        }
    }
    assert(orig.take(k) =~= orig);
}

/// The output of the generator that lands at index `j` after generator
/// `i` is removed: the first generator always mixes into the output; an
/// output into the removed generator becomes a plain mix into the output;
/// later generators are renumbered.
pub open spec fn output_after_osc_removal(j: int, o: OscOutput, i: usize) -> OscOutput {
    if j == 0 || output_index(o) == i {
        OscOutput::Mix(0)
    } else if output_index(o) > i {
        with_output_index(o, (output_index(o) - 1) as usize)
    } else {
        o
    }
}

/// The generators after generator `i` is removed.
pub open spec fn oscs_after_osc_removal<O, D>(oscs: Seq<Oscillator<O, D>>, i: usize) -> Seq<Oscillator<O, D>> {
    let r = oscs.remove(i as int);
    Seq::new(r.len(), |j: int| Oscillator {
        settings: r[j].settings,
        waveform: r[j].waveform,
        output: output_after_osc_removal(j, r[j].output, i),
    })
}

/// The modulation sources of a patch: the fixed ones, then each envelope,
/// then each LFO.
pub open spec fn mod_sources_spec(envs: nat, lfos: nat) -> Seq<ModSource> {
    seq![ModSource::Pitch, ModSource::Pressure, ModSource::Modulation, ModSource::Random]
        + Seq::new(envs, |k: int| ModSource::Envelope(k as usize))
        + Seq::new(lfos, |k: int| ModSource::LFO(k as usize))
}

/// The targets of each generator: level, pitch, fine pitch, and tone where
/// the waveform has one.
pub open spec fn osc_targets<O, D>(oscs: Seq<Oscillator<O, D>>) -> Seq<ModTarget>
    decreases oscs.len(),
{
    if oscs.len() == 0 {
        Seq::empty()
    } else {
        let k = (oscs.len() - 1) as usize;
        let tone = oscs.last().waveform is Pulse || oscs.last().waveform is Noise;
        osc_targets(oscs.drop_last()) + seq![ModTarget::Level(k), ModTarget::OscPitch(k), ModTarget::OscFinePitch(k)]
            + if tone { seq![ModTarget::Tone(k)] } else { Seq::empty() }
    }
}

/// The cutoff and resonance targets of each of `n` filters.
pub open spec fn filter_targets(n: nat) -> Seq<ModTarget>
    decreases n,
{
    if n == 0 {
        Seq::empty()
    } else {
        let k = (n - 1) as usize;
        filter_targets((n - 1) as nat) + seq![ModTarget::FilterCutoff(k), ModTarget::FilterQ(k)]
    }
}

/// The rate targets of the LFOs whose waveform has a frequency.
pub open spec fn lfo_targets<L, D>(lfos: Seq<Lfo<L, D>>) -> Seq<ModTarget>
    decreases lfos.len(),
{
    if lfos.len() == 0 {
        Seq::empty()
    } else {
        let k = (lfos.len() - 1) as usize;
        lfo_targets(lfos.drop_last()) + if lfos.last().waveform is Noise { Seq::empty() } else { seq![ModTarget::LFORate(k)] }
    }
}

/// The modulation targets of a patch.
pub open spec fn mod_targets_spec<O, L, M, F, E, D>(p: Patch<O, L, M, F, E, D>) -> Seq<ModTarget> {
    seq![ModTarget::Gain, ModTarget::Pan, ModTarget::Pitch, ModTarget::FinePitch, ModTarget::ClipGain]
        + osc_targets(p.oscs@)
        + filter_targets(p.filters@.len())
        + Seq::new(p.envs@.len(), |k: int| ModTarget::EnvScale(k as usize))
        + lfo_targets(p.lfos@)
        + Seq::new(p.mod_matrix@.len(), |k: int| ModTarget::ModDepth(k as usize))
}

impl<O, L, M, F, E, D> Patch<O, L, M, F, E, D> {
    /// Returns valid modulation sources for the patch.
    pub fn mod_sources(&self) -> (r: Vec<ModSource>)
        ensures
            r@ == mod_sources_spec(self.envs@.len(), self.lfos@.len()),
    {
        let mut v: Vec<ModSource> = Vec::new();
        v.push(ModSource::Pitch);
        v.push(ModSource::Pressure);
        v.push(ModSource::Modulation);
        v.push(ModSource::Random);
        let ghost fixed = v@;
        let mut i: usize = 0;
        while i < self.envs.len()
            invariant
                i <= self.envs@.len(),
                v@ == fixed + Seq::new(i as nat, |k: int| ModSource::Envelope(k as usize)),
            decreases self.envs.len() - i,
        {
            v.push(ModSource::Envelope(i));
            assert(v@ =~= fixed + Seq::new((i + 1) as nat, |k: int| ModSource::Envelope(k as usize)));
            i = i + 1;
        }
        let ghost with_envs = v@;
        let mut i: usize = 0;
        while i < self.lfos.len()
            invariant
                i <= self.lfos@.len(),
                v@ == with_envs + Seq::new(i as nat, |k: int| ModSource::LFO(k as usize)),
            decreases self.lfos.len() - i,
        {
            v.push(ModSource::LFO(i));
            assert(v@ =~= with_envs + Seq::new((i + 1) as nat, |k: int| ModSource::LFO(k as usize)));
            i = i + 1;
        }
        assert(v@ =~= mod_sources_spec(self.envs@.len(), self.lfos@.len()));
        v
    }

    /// Returns valid modulation destinations for the patch.
    pub fn mod_targets(&self) -> (r: Vec<ModTarget>)
        ensures
            r@ == mod_targets_spec(*self),
    {
        let mut v: Vec<ModTarget> = Vec::new();
        v.push(ModTarget::Gain);
        v.push(ModTarget::Pan);
        v.push(ModTarget::Pitch);
        v.push(ModTarget::FinePitch);
        v.push(ModTarget::ClipGain);
        let ghost fixed = v@;
        let mut i: usize = 0;
        while i < self.oscs.len()
            invariant
                i <= self.oscs@.len(),
                v@ == fixed + osc_targets(self.oscs@.take(i as int)),
            decreases self.oscs.len() - i,
        {
            proof {
                assert(self.oscs@.take(i as int + 1).drop_last() =~= self.oscs@.take(i as int));
            }
            v.push(ModTarget::Level(i));
            v.push(ModTarget::OscPitch(i));
            v.push(ModTarget::OscFinePitch(i));
            if self.oscs[i].waveform.uses_tone() {
                v.push(ModTarget::Tone(i));
            }
            assert(v@ =~= fixed + osc_targets(self.oscs@.take(i as int + 1)));
            i = i + 1;
        }
        assert(self.oscs@.take(i as int) =~= self.oscs@);
        let ghost a = v@;
        let mut i: usize = 0;
        while i < self.filters.len()
            invariant
                i <= self.filters@.len(),
                v@ == a + filter_targets(i as nat),
            decreases self.filters.len() - i,
        {
            v.push(ModTarget::FilterCutoff(i));
            v.push(ModTarget::FilterQ(i));
            assert(v@ =~= a + filter_targets((i + 1) as nat));
            i = i + 1;
        }
        let ghost b = v@;
        let mut i: usize = 0;
        while i < self.envs.len()
            invariant
                i <= self.envs@.len(),
                v@ == b + Seq::new(i as nat, |k: int| ModTarget::EnvScale(k as usize)),
            decreases self.envs.len() - i,
        {
            v.push(ModTarget::EnvScale(i));
            assert(v@ =~= b + Seq::new((i + 1) as nat, |k: int| ModTarget::EnvScale(k as usize)));
            i = i + 1;
        }
        let ghost c = v@;
        let mut i: usize = 0;
        while i < self.lfos.len()
            invariant
                i <= self.lfos@.len(),
                v@ == c + lfo_targets(self.lfos@.take(i as int)),
            decreases self.lfos.len() - i,
        {
            proof {
                assert(self.lfos@.take(i as int + 1).drop_last() =~= self.lfos@.take(i as int));
            }
            if self.lfos[i].waveform.uses_freq() {
                v.push(ModTarget::LFORate(i));
            }
            assert(v@ =~= c + lfo_targets(self.lfos@.take(i as int + 1)));
            i = i + 1;
        }
        assert(self.lfos@.take(i as int) =~= self.lfos@);
        let ghost d = v@;
        let mut i: usize = 0;
        while i < self.mod_matrix.len()
            invariant
                i <= self.mod_matrix@.len(),
                v@ == d + Seq::new(i as nat, |k: int| ModTarget::ModDepth(k as usize)),
            decreases self.mod_matrix.len() - i,
        {
            v.push(ModTarget::ModDepth(i));
            assert(v@ =~= d + Seq::new((i + 1) as nat, |k: int| ModTarget::ModDepth(k as usize)));
            i = i + 1;
        }
        assert(v@ =~= mod_targets_spec(*self));
        v
    }
}

/// The generic rebuild agrees with the matrix after each kind of removal.
proof fn lemma_mods_after<M>(mods: Seq<Modulation<M>>, i: usize)
    ensures
        mods_after(mods, Part::Osc, i) == mods_after_osc_removal(mods, i),
        mods_after(mods, Part::Filter, i) == mods_after_filter_removal(mods, i),
        mods_after(mods, Part::Env, i) == mods_after_env_removal(mods, i),
        mods_after(mods, Part::Lfo, i) == mods_after_lfo_removal(mods, i),
{
    let f1 = |m: Modulation<M>| mod_after(m, Part::Osc, i);
    let g1 = |m: Modulation<M>| if osc_of(m.target) == Some(i) {
        None
    } else {
        Some(Modulation { source: m.source, target: target_after_osc_removal(m.target, i), depth: m.depth })
    };
    assert(f1 =~= g1);
    let f2 = |m: Modulation<M>| mod_after(m, Part::Filter, i);
    let g2 = |m: Modulation<M>| if filter_of(m.target) == Some(i) {
        None
    } else {
        Some(Modulation { source: m.source, target: target_after_filter_removal(m.target, i), depth: m.depth })
    };
    assert(f2 =~= g2);
    let f3 = |m: Modulation<M>| mod_after(m, Part::Env, i);
    let g3 = |m: Modulation<M>| if m.source == ModSource::Envelope(i) {
        None
    } else {
        Some(Modulation { source: source_after(m.source, true, false, i), target: m.target, depth: m.depth })
    };
    assert(f3 =~= g3);
    let f4 = |m: Modulation<M>| mod_after(m, Part::Lfo, i);
    let g4 = |m: Modulation<M>| if m.source == ModSource::LFO(i) || m.target == ModTarget::LFORate(i) {
        None
    } else {
        Some(Modulation { source: source_after(m.source, false, true, i), target: target_after_lfo_removal(m.target, i), depth: m.depth })
    };
    assert(f4 =~= g4);
}

proof fn lemma_mods_after_mod<M>(mods: Seq<Modulation<M>>, i: usize)
    ensures
        mods_after(mods, Part::Mod, i) == mods.filter_map(|m: Modulation<M>| if m.target == ModTarget::ModDepth(i) {
            None
        } else {
            Some(Modulation { source: m.source, target: target_after_mod_removal(m.target, i), depth: m.depth })
        }),
{
    let f = |m: Modulation<M>| mod_after(m, Part::Mod, i);
    let g = |m: Modulation<M>| if m.target == ModTarget::ModDepth(i) {
        None
    } else {
        Some(Modulation { source: m.source, target: target_after_mod_removal(m.target, i), depth: m.depth })
    };
    assert(f =~= g);
}

impl<O, L, M, F, E, D> Patch<O, L, M, F, E, D> {
    /// Remove a generator, updating other settings as needed.
    pub fn remove_osc(&mut self, i: usize)
        ensures
            i < old(self).oscs@.len() ==> final(self).oscs@ == oscs_after_osc_removal(old(self).oscs@, i)
                && final(self).mod_matrix@ == mods_after_osc_removal(old(self).mod_matrix@, i),
            i >= old(self).oscs@.len() ==> final(self).oscs@ == old(self).oscs@
                && final(self).mod_matrix@ == old(self).mod_matrix@,
            final(self).filters@ == old(self).filters@,
            final(self).envs@ == old(self).envs@,
            final(self).lfos@ == old(self).lfos@,
    {
        if i >= self.oscs.len() {
            return;
        }
        self.oscs.remove(i);
        let ghost r = self.oscs@;
        assert(r.len() <= usize::MAX);
        let mut rest: Vec<Oscillator<O, D>> = Vec::new();
        core::mem::swap(&mut rest, &mut self.oscs);
        let mut j: usize = 0;
        while rest.len() > 0
            invariant
                j <= r.len(),
                r.len() <= usize::MAX,
                r == old(self).oscs@.remove(i as int),
                self.filters@ == old(self).filters@,
                self.envs@ == old(self).envs@,
                self.lfos@ == old(self).lfos@,
                self.mod_matrix@ == old(self).mod_matrix@,
                rest@ == r.skip(j as int),
                self.oscs@.len() == j,
                forall|x: int| 0 <= x < j ==> #[trigger] self.oscs@[x] == (Oscillator {
                    settings: r[x].settings,
                    waveform: r[x].waveform,
                    output: output_after_osc_removal(x, r[x].output, i),
                }),
            decreases rest.len(),
        {
            let mut o = rest.remove(0);
            assert(o == r[j as int]);
            if j == 0 {
                o.output = OscOutput::Mix(0);
            } else {
                o.output = match o.output {
                    OscOutput::Mix(n) if n == i => OscOutput::Mix(0),
                    OscOutput::AM(n) if n == i => OscOutput::Mix(0),
                    OscOutput::RM(n) if n == i => OscOutput::Mix(0),
                    OscOutput::FM(n) if n == i => OscOutput::Mix(0),
                    OscOutput::Mix(n) if n > i => OscOutput::Mix(n - 1),
                    OscOutput::AM(n) if n > i => OscOutput::AM(n - 1),
                    OscOutput::RM(n) if n > i => OscOutput::RM(n - 1),
                    OscOutput::FM(n) if n > i => OscOutput::FM(n - 1),
                    out => out,
                };
            }
            self.oscs.push(o);
            assert(rest@ =~= r.skip(j as int + 1));
            j = j + 1;
        }
        assert(self.oscs@ =~= oscs_after_osc_removal(old(self).oscs@, i));
        proof {
            lemma_mods_after(self.mod_matrix@, i);
        }
        rebuild_mods(&mut self.mod_matrix, Part::Osc, i);
    }

    /// Remove a filter, updating other settings as needed.
    pub fn remove_filter(&mut self, i: usize)
        ensures
            i < old(self).filters@.len() ==> final(self).filters@ == old(self).filters@.remove(i as int)
                && final(self).mod_matrix@ == mods_after_filter_removal(old(self).mod_matrix@, i),
            i >= old(self).filters@.len() ==> final(self).filters@ == old(self).filters@
                && final(self).mod_matrix@ == old(self).mod_matrix@,
            final(self).oscs@ == old(self).oscs@,
            final(self).envs@ == old(self).envs@,
            final(self).lfos@ == old(self).lfos@,
    {
        if i >= self.filters.len() {
            return;
        }
        self.filters.remove(i);
        proof {
            lemma_mods_after(self.mod_matrix@, i);
        }
        rebuild_mods(&mut self.mod_matrix, Part::Filter, i);
    }

    /// Remove an envelope, updating other settings as needed.
    pub fn remove_env(&mut self, i: usize)
        ensures
            i < old(self).envs@.len() ==> final(self).envs@ == old(self).envs@.remove(i as int)
                && final(self).mod_matrix@ == mods_after_env_removal(old(self).mod_matrix@, i),
            i >= old(self).envs@.len() ==> final(self).envs@ == old(self).envs@
                && final(self).mod_matrix@ == old(self).mod_matrix@,
            final(self).oscs@ == old(self).oscs@,
            final(self).filters@ == old(self).filters@,
            final(self).lfos@ == old(self).lfos@,
    {
        if i < self.envs.len() {
            self.envs.remove(i);
            proof {
                lemma_mods_after(self.mod_matrix@, i);
            }
            rebuild_mods(&mut self.mod_matrix, Part::Env, i);
        }
    }

    /// Remove an LFO, updating other settings as needed.
    pub fn remove_lfo(&mut self, i: usize)
        ensures
            i < old(self).lfos@.len() ==> final(self).lfos@ == old(self).lfos@.remove(i as int)
                && final(self).mod_matrix@ == mods_after_lfo_removal(old(self).mod_matrix@, i),
            i >= old(self).lfos@.len() ==> final(self).lfos@ == old(self).lfos@
                && final(self).mod_matrix@ == old(self).mod_matrix@,
            final(self).oscs@ == old(self).oscs@,
            final(self).filters@ == old(self).filters@,
            final(self).envs@ == old(self).envs@,
    {
        if i < self.lfos.len() {
            self.lfos.remove(i);
            proof {
                lemma_mods_after(self.mod_matrix@, i);
            }
            rebuild_mods(&mut self.mod_matrix, Part::Lfo, i);
        }
    }

    /// Remove a mod matrix entry, updating other settings as needed.
    pub fn remove_mod(&mut self, i: usize)
        ensures
            i < old(self).mod_matrix@.len() ==> final(self).mod_matrix@ == mods_after_mod_removal(old(self).mod_matrix@, i),
            i >= old(self).mod_matrix@.len() ==> final(self).mod_matrix@ == old(self).mod_matrix@,
            final(self).oscs@ == old(self).oscs@,
            final(self).filters@ == old(self).filters@,
            final(self).envs@ == old(self).envs@,
            final(self).lfos@ == old(self).lfos@,
    {
        if i < self.mod_matrix.len() {
            self.mod_matrix.remove(i);
            proof {
                lemma_mods_after_mod(self.mod_matrix@, i);
            }
            rebuild_mods(&mut self.mod_matrix, Part::Mod, i);
        }
    }
}

/// Generator `j` may mix into the patch output (the first one must), mix
/// into an earlier generator, or modulate one.
pub open spec fn output_valid(j: int, o: OscOutput) -> bool {
    if j == 0 {
        o == OscOutput::Mix(0)
    } else {
        output_index(o) < j
    }
}

/// A source names an existing envelope or LFO.
pub open spec fn source_valid(s: ModSource, envs: nat, lfos: nat) -> bool {
    match s {
        ModSource::Envelope(n) => n < envs,
        ModSource::LFO(n) => n < lfos,
        _ => true,
    }
}

/// A target names an existing generator, filter, envelope or LFO.
pub open spec fn target_valid(t: ModTarget, oscs: nat, filters: nat, envs: nat, lfos: nat) -> bool {
    match t {
        ModTarget::Level(n) => n < oscs,
        ModTarget::OscPitch(n) => n < oscs,
        ModTarget::OscFinePitch(n) => n < oscs,
        ModTarget::Tone(n) => n < oscs,
        ModTarget::FilterCutoff(n) => n < filters,
        ModTarget::FilterQ(n) => n < filters,
        ModTarget::EnvScale(n) => n < envs,
        ModTarget::LFORate(n) => n < lfos,
        _ => true,
    }
}

/// Every generator output refers to an earlier generator, and every
/// modulation to existing generators, filters, envelopes and LFOs. (The
/// depth of a modulation is not among them: removals do not keep such
/// references in range.)
pub open spec fn routing_valid<O, M, D>(oscs: Seq<Oscillator<O, D>>, filters: nat, envs: nat, lfos: nat,
    mods: Seq<Modulation<M>>) -> bool
{
    &&& forall|j: int| 0 <= j < oscs.len() ==> output_valid(j, #[trigger] oscs[j].output)
    &&& forall|k: int| 0 <= k < mods.len() ==> source_valid(#[trigger] mods[k].source, envs, lfos)
        && target_valid(mods[k].target, oscs.len(), filters, envs, lfos)
}

/// Every element of a `filter_map` is the image of an element of the
/// source.
proof fn lemma_filter_map_elems<A, B>(s: Seq<A>, f: spec_fn(A) -> Option<B>)
    ensures
        forall|k: int| 0 <= k < s.filter_map(f).len() ==>
            exists|j: int| 0 <= j < s.len() && f(s[j]) == Some(#[trigger] s.filter_map(f)[k]),
    decreases s.len(),
{
    if s.len() > 0 {
        let rest = s.drop_last();
        lemma_filter_map_elems(rest, f);
        assert forall|k: int| 0 <= k < s.filter_map(f).len() implies
            exists|j: int| 0 <= j < s.len() && f(s[j]) == Some(#[trigger] s.filter_map(f)[k]) by {
            if k < rest.filter_map(f).len() {
                assert(s.filter_map(f)[k] == rest.filter_map(f)[k]);
                let j = choose|j: int| 0 <= j < rest.len() && f(rest[j]) == Some(rest.filter_map(f)[k]);
                assert(s[j] == rest[j]);
            } else {
                assert(s[s.len() - 1] == s.last());
            }
        }
    }
}

/// Removing a generator keeps the routing valid.
pub proof fn lemma_remove_osc_routing<O, M, D>(oscs: Seq<Oscillator<O, D>>, filters: nat, envs: nat, lfos: nat,
    mods: Seq<Modulation<M>>, i: usize)
    requires
        routing_valid(oscs, filters, envs, lfos, mods),
        i < oscs.len(),
    ensures
        routing_valid(oscs_after_osc_removal(oscs, i), filters, envs, lfos, mods_after_osc_removal(mods, i)),
{
    let r = oscs.remove(i as int);
    let no = oscs_after_osc_removal(oscs, i);
    assert forall|j: int| 0 <= j < no.len() implies output_valid(j, #[trigger] no[j].output) by {
        if j < i {
            assert(r[j] == oscs[j]);
            assert(output_valid(j, oscs[j].output));
        } else {
            assert(r[j] == oscs[j + 1]);
            assert(output_valid(j + 1, oscs[j + 1].output));
        }
    }
    let f = |m: Modulation<M>| if osc_of(m.target) == Some(i) {
        None
    } else {
        Some(Modulation { source: m.source, target: target_after_osc_removal(m.target, i), depth: m.depth })
    };
    lemma_filter_map_elems(mods, f);
    let nm = mods_after_osc_removal(mods, i);
    assert forall|k: int| 0 <= k < nm.len() implies source_valid(#[trigger] nm[k].source, envs, lfos)
        && target_valid(nm[k].target, no.len(), filters, envs, lfos) by {
        let j = choose|j: int| 0 <= j < mods.len() && f(mods[j]) == Some(nm[k]);
        assert(source_valid(mods[j].source, envs, lfos));
        assert(target_valid(mods[j].target, oscs.len(), filters, envs, lfos));
    }
}

/// Removing a filter keeps the routing valid.
pub proof fn lemma_remove_filter_routing<O, M, D>(oscs: Seq<Oscillator<O, D>>, filters: nat, envs: nat, lfos: nat,
    mods: Seq<Modulation<M>>, i: usize)
    requires
        routing_valid(oscs, filters, envs, lfos, mods),
        i < filters,
    ensures
        routing_valid(oscs, (filters - 1) as nat, envs, lfos, mods_after_filter_removal(mods, i)),
{
    let f = |m: Modulation<M>| if filter_of(m.target) == Some(i) {
        None
    } else {
        Some(Modulation { source: m.source, target: target_after_filter_removal(m.target, i), depth: m.depth })
    };
    lemma_filter_map_elems(mods, f);
    let nm = mods_after_filter_removal(mods, i);
    assert forall|k: int| 0 <= k < nm.len() implies source_valid(#[trigger] nm[k].source, envs, lfos)
        && target_valid(nm[k].target, oscs.len(), (filters - 1) as nat, envs, lfos) by {
        let j = choose|j: int| 0 <= j < mods.len() && f(mods[j]) == Some(nm[k]);
        assert(source_valid(mods[j].source, envs, lfos));
        assert(target_valid(mods[j].target, oscs.len(), filters, envs, lfos));
    }
}

/// Removing an envelope keeps the routing valid where no modulation
/// scales that envelope or a later one (removal does not renumber envelope
/// scale targets).
pub proof fn lemma_remove_env_routing<O, M, D>(oscs: Seq<Oscillator<O, D>>, filters: nat, envs: nat, lfos: nat,
    mods: Seq<Modulation<M>>, i: usize)
    requires
        routing_valid(oscs, filters, envs, lfos, mods),
        i < envs,
        forall|k: int| 0 <= k < mods.len() ==> !((#[trigger] mods[k]).target matches ModTarget::EnvScale(n) && n >= i),
    ensures
        routing_valid(oscs, filters, (envs - 1) as nat, lfos, mods_after_env_removal(mods, i)),
{
    let f = |m: Modulation<M>| if m.source == ModSource::Envelope(i) {
        None
    } else {
        Some(Modulation { source: source_after(m.source, true, false, i), target: m.target, depth: m.depth })
    };
    lemma_filter_map_elems(mods, f);
    let nm = mods_after_env_removal(mods, i);
    assert forall|k: int| 0 <= k < nm.len() implies source_valid(#[trigger] nm[k].source, (envs - 1) as nat, lfos)
        && target_valid(nm[k].target, oscs.len(), filters, (envs - 1) as nat, lfos) by {
        let j = choose|j: int| 0 <= j < mods.len() && f(mods[j]) == Some(nm[k]);
        assert(source_valid(mods[j].source, envs, lfos));
        assert(target_valid(mods[j].target, oscs.len(), filters, envs, lfos));
        assert(!(mods[j].target matches ModTarget::EnvScale(n) && n >= i));
    }
}

/// Removing an LFO keeps the routing valid.
pub proof fn lemma_remove_lfo_routing<O, M, D>(oscs: Seq<Oscillator<O, D>>, filters: nat, envs: nat, lfos: nat,
    mods: Seq<Modulation<M>>, i: usize)
    requires
        routing_valid(oscs, filters, envs, lfos, mods),
        i < lfos,
    ensures
        routing_valid(oscs, filters, envs, (lfos - 1) as nat, mods_after_lfo_removal(mods, i)),
{
    let f = |m: Modulation<M>| if m.source == ModSource::LFO(i) || m.target == ModTarget::LFORate(i) {
        None
    } else {
        Some(Modulation { source: source_after(m.source, false, true, i), target: target_after_lfo_removal(m.target, i), depth: m.depth })
    };
    lemma_filter_map_elems(mods, f);
    let nm = mods_after_lfo_removal(mods, i);
    assert forall|k: int| 0 <= k < nm.len() implies source_valid(#[trigger] nm[k].source, envs, (lfos - 1) as nat)
        && target_valid(nm[k].target, oscs.len(), filters, envs, (lfos - 1) as nat) by {
        let j = choose|j: int| 0 <= j < mods.len() && f(mods[j]) == Some(nm[k]);
        assert(source_valid(mods[j].source, envs, lfos));
        assert(target_valid(mods[j].target, oscs.len(), filters, envs, lfos));
    }
}

/// Every output choice offered to a generator is a valid output for it.
pub proof fn lemma_choices_valid(index: nat)
    ensures
        forall|k: int| 0 <= k < output_choices(index).len() ==> output_valid(index as int, #[trigger] output_choices(index)[k]),
{
    if index >= 2 {
        let i = (index - 1) as usize;
        let earlier = Seq::new((index - 1) as nat, |k: int| OscOutput::Mix(k as usize));
        let tail = seq![OscOutput::Mix(i), OscOutput::AM(i), OscOutput::RM(i), OscOutput::FM(i)];
        assert forall|k: int| 0 <= k < output_choices(index).len() implies output_valid(index as int, #[trigger] output_choices(index)[k]) by {
            if k < earlier.len() {
                assert(output_choices(index)[k] == earlier[k]);
            } else {
                assert(output_choices(index)[k] == tail[k - earlier.len()]);
            }
        }
    }
}

/// The UI name of a waveform.
pub open spec fn waveform_name<D>(w: Waveform<D>) -> Seq<char> {
    match w {
        Waveform::Sawtooth => "Sawtooth"@,
        Waveform::Pulse => "Pulse"@,
        Waveform::Triangle => "Triangle"@,
        Waveform::Sine => "Sine"@,
        Waveform::Hold => "S&H"@,
        Waveform::Noise => "Noise"@,
        Waveform::Pcm(_) => "PCM"@,
    }
}

impl<D> Waveform<D> {
    /// Returns UI string.
    pub fn name(&self) -> (r: &'static str)
        ensures
            r@ == waveform_name(*self),
    {
        match self {
            Self::Sawtooth => "Sawtooth",
            Self::Pulse => "Pulse",
            Self::Triangle => "Triangle",
            Self::Sine => "Sine",
            Self::Hold => "S&H",
            Self::Noise => "Noise",
            Self::Pcm(_) => "PCM",
        }
    }
}

/// How a patch plays overlapping notes.
#[derive(Clone, Copy, PartialEq, Eq, Debug, Structural)]
pub enum PlayMode {
    Poly,
    Mono,
    SingleTrigger,
}

/// The UI name of a play mode.
pub open spec fn play_mode_name(m: PlayMode) -> Seq<char> {
    match m {
        PlayMode::Poly => "Poly"@,
        PlayMode::Mono => "Mono"@,
        PlayMode::SingleTrigger => "Single trigger"@,
    }
}

impl PlayMode {
    /// Returns the UI string for this play mode.
    pub fn name(&self) -> (r: &'static str)
        ensures
            r@ == play_mode_name(*self),
    {
        match self {
            Self::Poly => "Poly",
            Self::Mono => "Mono",
            Self::SingleTrigger => "Single trigger",
        }
    }
}

/// How much a filter's cutoff follows the played pitch.
#[derive(Clone, Copy, PartialEq, Eq, Debug, Structural)]
pub enum KeyTracking {
    /// The cutoff does not follow the pitch.
    Off,
    Partial,
    Full,
}

/// The UI name of a key tracking setting.
pub open spec fn key_tracking_name(k: KeyTracking) -> Seq<char> {
    match k {
        KeyTracking::Off => "None"@,
        KeyTracking::Partial => "Partial"@,
        KeyTracking::Full => "Full"@,
    }
}

impl KeyTracking {
    pub fn name(&self) -> (r: &'static str)
        ensures
            r@ == key_tracking_name(*self),
    {
        match self {
            Self::Off => "None",
            Self::Partial => "Partial",
            Self::Full => "Full",
        }
    }
}

/// Filter responses.
#[derive(Clone, Copy, PartialEq, Eq, Debug, Structural)]
pub enum FilterType {
    Ladder,
    Lowpass,
    Highpass,
    Bandpass,
    Notch,
}

/// The UI name of a filter type.
pub open spec fn filter_type_name(f: FilterType) -> Seq<char> {
    match f {
        FilterType::Ladder => "Ladder"@,
        FilterType::Lowpass => "Lowpass"@,
        FilterType::Highpass => "Highpass"@,
        FilterType::Bandpass => "Bandpass"@,
        FilterType::Notch => "Notch"@,
    }
}

impl FilterType {
    /// Returns the UI string for the filter type.
    pub fn name(&self) -> (r: &'static str)
        ensures
            r@ == filter_type_name(*self),
    {
        match self {
            Self::Ladder => "Ladder",
            Self::Lowpass => "Lowpass",
            Self::Highpass => "Highpass",
            Self::Bandpass => "Bandpass",
            Self::Notch => "Notch",
        }
    }
}

} // verus!
