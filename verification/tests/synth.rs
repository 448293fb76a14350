use osctet::synth::{FilterType, KeyTracking, PlayMode};
use osctet::synth::{Lfo, ModSource, ModTarget, Modulation, OscOutput, Oscillator, Patch, Waveform};

type P = Patch<u8, u8, u8, u8, u8, ()>;

fn osc(settings: u8, waveform: Waveform<()>, output: OscOutput) -> Oscillator<u8, ()> {
    Oscillator { settings, waveform, output }
}

fn m(source: ModSource, target: ModTarget, depth: u8) -> Modulation<u8> {
    Modulation { source, target, depth }
}

fn patch() -> P {
    Patch {
        filters: vec![0, 1],
        oscs: vec![
            osc(0, Waveform::Sine, OscOutput::Mix(0)),
            osc(1, Waveform::Pulse, OscOutput::FM(0)),
            osc(2, Waveform::Noise, OscOutput::AM(1)),
            osc(3, Waveform::Sawtooth, OscOutput::Mix(2)),
        ],
        envs: vec![0, 1],
        lfos: vec![
            Lfo { settings: 0, waveform: Waveform::Triangle },
            Lfo { settings: 1, waveform: Waveform::Noise },
        ],
        mod_matrix: vec![
            m(ModSource::Envelope(0), ModTarget::Level(1), 1),
            m(ModSource::LFO(1), ModTarget::FilterCutoff(1), 2),
            m(ModSource::Envelope(1), ModTarget::Tone(2), 3),
            m(ModSource::LFO(0), ModTarget::LFORate(1), 4),
        ],
    }
}

fn outputs(p: &P) -> Vec<OscOutput> {
    p.oscs.iter().map(|o| o.output).collect()
}

fn routes(p: &P) -> Vec<(ModSource, ModTarget, u8)> {
    p.mod_matrix.iter().map(|m| (m.source, m.target, m.depth)).collect()
}

#[test]
fn output_choices() {
    assert_eq!(OscOutput::choices(0), vec![OscOutput::Mix(0)]);
    assert_eq!(OscOutput::choices(1), vec![OscOutput::Mix(0), OscOutput::AM(0), OscOutput::RM(0), OscOutput::FM(0)]);
    assert_eq!(OscOutput::choices(3), vec![
        OscOutput::Mix(0), OscOutput::Mix(1),
        OscOutput::Mix(2), OscOutput::AM(2), OscOutput::RM(2), OscOutput::FM(2),
    ]);
}

#[test]
fn sources_and_targets() {
    let p = patch();
    assert_eq!(p.mod_sources(), vec![
        ModSource::Pitch, ModSource::Pressure, ModSource::Modulation, ModSource::Random,
        ModSource::Envelope(0), ModSource::Envelope(1), ModSource::LFO(0), ModSource::LFO(1),
    ]);
    let t = p.mod_targets();
    assert_eq!(t.len(), 5 + (3 + 4 + 4 + 3) + 4 + 2 + 1 + 4);
    assert_eq!(&t[..5], &[ModTarget::Gain, ModTarget::Pan, ModTarget::Pitch, ModTarget::FinePitch, ModTarget::ClipGain]);
    assert!(t.contains(&ModTarget::Tone(1)));
    assert!(t.contains(&ModTarget::Tone(2)));
    assert!(!t.contains(&ModTarget::Tone(0)));
    assert!(t.contains(&ModTarget::LFORate(0)));
    assert!(!t.contains(&ModTarget::LFORate(1)));
    assert_eq!(t[t.len() - 1], ModTarget::ModDepth(3));
}

#[test]
fn remove_osc_renumbers() {
    let mut p = patch();
    p.remove_osc(1);
    assert_eq!(outputs(&p), vec![OscOutput::Mix(0), OscOutput::Mix(0), OscOutput::Mix(1)]);
    assert_eq!(p.oscs.iter().map(|o| o.settings).collect::<Vec<_>>(), vec![0, 2, 3]);
    assert_eq!(routes(&p), vec![
        (ModSource::LFO(1), ModTarget::FilterCutoff(1), 2),
        (ModSource::Envelope(1), ModTarget::Tone(1), 3),
        (ModSource::LFO(0), ModTarget::LFORate(1), 4),
    ]);
    p.remove_osc(7);
    assert_eq!(p.oscs.len(), 3);
}

#[test]
fn remove_first_osc_keeps_first_output_mixed() {
    let mut p = patch();
    p.remove_osc(0);
    assert_eq!(outputs(&p), vec![OscOutput::Mix(0), OscOutput::AM(0), OscOutput::Mix(1)]);
}

#[test]
fn remove_filter_env_lfo_mod() {
    let mut p = patch();
    p.remove_filter(0);
    assert_eq!(p.filters, vec![1]);
    assert_eq!(routes(&p)[1], (ModSource::LFO(1), ModTarget::FilterCutoff(0), 2));

    let mut p = patch();
    p.remove_env(0);
    assert_eq!(p.envs, vec![1]);
    assert_eq!(routes(&p), vec![
        (ModSource::LFO(1), ModTarget::FilterCutoff(1), 2),
        (ModSource::Envelope(0), ModTarget::Tone(2), 3),
        (ModSource::LFO(0), ModTarget::LFORate(1), 4),
    ]);

    let mut p = patch();
    p.remove_lfo(1);
    assert_eq!(routes(&p), vec![
        (ModSource::Envelope(0), ModTarget::Level(1), 1),
        (ModSource::Envelope(1), ModTarget::Tone(2), 3),
    ]);

    let mut p = patch();
    p.mod_matrix.push(m(ModSource::Random, ModTarget::ModDepth(3), 5));
    p.mod_matrix.push(m(ModSource::Random, ModTarget::ModDepth(0), 6));
    p.remove_mod(0);
    assert_eq!(routes(&p), vec![
        (ModSource::LFO(1), ModTarget::FilterCutoff(1), 2),
        (ModSource::Envelope(1), ModTarget::Tone(2), 3),
        (ModSource::LFO(0), ModTarget::LFORate(1), 4),
        (ModSource::Random, ModTarget::ModDepth(2), 5),
    ]);
}

#[test]
fn waveform_and_target_kinds() {
    assert!(Waveform::<()>::Pulse.uses_tone());
    assert!(!Waveform::<()>::Sine.uses_tone());
    assert!(!Waveform::<()>::Noise.uses_freq());
    assert!(!Waveform::<()>::Pcm(None).uses_oversampling());
    assert!(Waveform::<()>::Sawtooth.uses_oversampling());
    assert!(!ModTarget::Gain.is_additive());
    assert!(!ModTarget::Level(2).is_additive());
    assert!(ModTarget::Pan.is_additive());
    assert_eq!(ModTarget::OscFinePitch(4).osc(), Some(4));
    assert_eq!(ModTarget::FilterQ(1).filter(), Some(1));
    assert_eq!(ModTarget::FilterQ(1).osc(), None);
}

#[test]
fn ui_names() {
    assert_eq!(Waveform::<()>::Hold.name(), "S&H");
    assert_eq!(Waveform::<()>::Pcm(None).name(), "PCM");
    assert_eq!(PlayMode::SingleTrigger.name(), "Single trigger");
    assert_eq!(KeyTracking::Off.name(), "None");
    assert_eq!(FilterType::Bandpass.name(), "Bandpass");
}
