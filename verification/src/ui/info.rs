//! Context help shown for controls.

use vstd::prelude::*;

verus! {

use crate::input::{Action, action_name};
use vstd::string::StringExecFns;

/// Info text types for specific controls.
pub enum Info {
    Blank,
    OctaveRatio,
    OctaveSteps,
    ArrowSteps,
    Division,
    Octave,
    Predelay,
    DelayTime,
    DelayFeedback,
    CompGain,
    CompThreshold,
    CompRatio,
    CompAttack,
    CompRelease,
    StereoWidth,
    Gamma,
    Chroma,
    GlideTime,
    Distortion,
    FxSend,
    LoopPoint,
    Tone,
    FreqRatio,
    FilterCutoff,
    FilterResonance,
    Attack,
    Decay,
    Sustain,
    Release,
    LfoDelay,
    ModDepth,
    LoadScale,
    SavePatch,
    LoadPatch,
    DuplicatePatch,
    LoadSample,
    PrevSample,
    NextSample,
    DetectPitch,
    Add(&'static str),
    Remove(&'static str),
    ResetTheme(&'static str),
    FontSize(&'static str),
    ResetSettings,
    Aftertouch,
    TuningRoot,
    KitNoteIn,
    KitNoteOut,
    Action(Action),
    GlobalTrack,
    KitTrack,
}

/// Info text types for widget categories.
pub enum ControlInfo {
    Blank,
    Slider,
    Note,
    Hotkey,
}


/// The description shown for a control, before any hotkeys. Of the actions,
/// none has a description of its own.
pub open spec fn info_description(info: Info) -> Seq<char> {
    match info {
        Info::Blank => Seq::empty(),
        Info::OctaveRatio =>
"Size of the octave, as a frequency multiplier.
Can be used to slightly stretch the octave, or to
use a different interval as the scale period."@,
        Info::OctaveSteps => "Number of steps to divide the octave into."@,
        Info::ArrowSteps =>
"Number of steps notated by an up/down accidental.
By default an arrow means one step, but in large
tunings it may be useful to notate multiple steps
with one arrow."@,
        Info::Division => "Current number of rows per beat."@,
        Info::Octave => "Current octave for note input."@,
        Info::Predelay =>
"Delay before the dry signal reaches the reverb.
Can be used to avoid muddying transients, or to
create a sense of spatial proximity."@,
        Info::DelayTime => "Time between echoes."@,
        Info::DelayFeedback =>
"Amount of self-feedback. Larger values create more
persistent echoes."@,
        Info::CompGain => "Pre-compression gain."@,
        Info::CompThreshold => "Amplitude threshold where compression starts."@,
        Info::CompRatio =>
"Ratio of input dB above threshold to output dB
above threshold."@,
        Info::CompAttack =>
"Approximate time the compressor takes to engage
when the input level rises."@,
        Info::CompRelease =>
"Approximate time the compressor takes to disengage
when the input level falls."@,
        Info::StereoWidth =>
"Multiplier to instrument pan values. Can be used
to check the mono mix, or to reverse panning. Does
not affect render output."@,
        Info::Gamma =>
"Gamma correction. Applies a brightness curve to
make value differences look approximately uniform."@,
        Info::Chroma =>
"Colorfulness. Different hues reach full saturation
at different points in the 130-180 range."@,
        Info::GlideTime =>
"Approximate time the patch takes to glide to new
pitches."@,
        Info::Distortion => "Portion of the signal to be hard clipped."@,
        Info::FxSend => "Amount of signal to send to the spatial FX bus."@,
        Info::LoopPoint =>
"Position where loop begins. Snaps to values with
smaller discontinuities. Loop end point is always
the end of the sample."@,
        Info::Tone =>
"For pulse waves, sets the duty cycle. For noise,
mixes between pink and white noise."@,
        Info::FreqRatio =>
"Frequency ratio of this generator compared to the
base frequency of the note. Integer values give
harmonic results when mixing or modulating multiple
generators."@,
        Info::FilterCutoff =>
"Approximate frequency where the filter starts
attenuating input. Also the resonant."@,
        Info::FilterResonance =>
"How much to emphasize frequencies near the cutoff
frequency."@,
        Info::Attack => "Time to reach initial peak level."@,
        Info::Decay => "Time to transition between peak and sustain levels."@,
        Info::Sustain => "Minimum level to hold while note is on."@,
        Info::Release =>
"Time to transition between sustain level and zero
after note is released."@,
        Info::LfoDelay => "Time LFO takes to reach full amplitude."@,
        Info::ModDepth =>
"Amount of modulation. Scale varies depending on
the destination."@,
        Info::LoadScale =>
"Load a tuning from a Scala .scl file. The tuning
will be notated the same as an equal temperament
with the same number of notes."@,
        Info::SavePatch => "Write the selected patch to disk."@,
        Info::LoadPatch => "Load patches from disk."@,
        Info::DuplicatePatch => "Create a copy of the selected patch."@,
        Info::LoadSample =>
"Load an audio file from disk. For multichannel
audio, only the first channel will be used. Most
common audio formats are supported. Audio is
normalized when loading. Compressed formats will
use less space in a save file."@,
        Info::PrevSample => "Load the previous sample in the directory."@,
        Info::NextSample => "Load the next sample in the directory."@,
        Info::DetectPitch =>
"Attempt to automatically set the sample pitch to
match the default oscillator pitch. Works best with
harmonic spectra and strong fundamentals."@,
        Info::ResetSettings => "Reset all settings to defaults."@,
        Info::Aftertouch =>
"If enabled, convert channel pressure and key pressure
messages to pressure values. If disabled, only
velocity is converted."@,
        Info::TuningRoot =>
"Determines which note is mapped to the start of
the loaded scale. For equal-step scales, this has
no effect."@,
        Info::KitNoteIn => "The note that activates this kit mapping."@,
        Info::KitNoteOut => "The pitch that this kit mapping plays at."@,
        Info::GlobalTrack => "Holds control events like tempo, loop, and end."@,
        Info::KitTrack =>
"Uses the patch & note mappings from the Kit entry
in the Instruments tab."@,
        Info::Add(s) => "Add "@ + s@ + "."@,
        Info::Remove(s) => "Remove "@ + s@ + "."@,
        Info::ResetTheme(variant) => "Reset colors to the default "@ + variant@ + " theme."@,
        Info::FontSize(op) => op@ + " font size."@,
        Info::Action(_) => Seq::empty(),
    }
}

/// The description shown for a control, before any hotkeys.
fn description(info: &Info) -> (r: String)
    ensures
        r@ == info_description(*info),
{
    match info {
        Info::Blank => String::new(),
        Info::OctaveRatio =>
"Size of the octave, as a frequency multiplier.
Can be used to slightly stretch the octave, or to
use a different interval as the scale period.".to_owned(),
        Info::OctaveSteps => "Number of steps to divide the octave into.".to_owned(),
        Info::ArrowSteps =>
"Number of steps notated by an up/down accidental.
By default an arrow means one step, but in large
tunings it may be useful to notate multiple steps
with one arrow.".to_owned(),
        Info::Division => "Current number of rows per beat.".to_owned(),
        Info::Octave => "Current octave for note input.".to_owned(),
        Info::Predelay =>
"Delay before the dry signal reaches the reverb.
Can be used to avoid muddying transients, or to
create a sense of spatial proximity.".to_owned(),
        Info::DelayTime => "Time between echoes.".to_owned(),
        Info::DelayFeedback =>
"Amount of self-feedback. Larger values create more
persistent echoes.".to_owned(),
        Info::CompGain => "Pre-compression gain.".to_owned(),
        Info::CompThreshold => "Amplitude threshold where compression starts.".to_owned(),
        Info::CompRatio =>
"Ratio of input dB above threshold to output dB
above threshold.".to_owned(),
        Info::CompAttack =>
"Approximate time the compressor takes to engage
when the input level rises.".to_owned(),
        Info::CompRelease =>
"Approximate time the compressor takes to disengage
when the input level falls.".to_owned(),
        Info::StereoWidth =>
"Multiplier to instrument pan values. Can be used
to check the mono mix, or to reverse panning. Does
not affect render output.".to_owned(),
        Info::Gamma =>
"Gamma correction. Applies a brightness curve to
make value differences look approximately uniform.".to_owned(),
        Info::Chroma =>
"Colorfulness. Different hues reach full saturation
at different points in the 130-180 range.".to_owned(),
        Info::GlideTime =>
"Approximate time the patch takes to glide to new
pitches.".to_owned(),
        Info::Distortion => "Portion of the signal to be hard clipped.".to_owned(),
        Info::FxSend => "Amount of signal to send to the spatial FX bus.".to_owned(),
        Info::LoopPoint =>
"Position where loop begins. Snaps to values with
smaller discontinuities. Loop end point is always
the end of the sample.".to_owned(),
        Info::Tone =>
"For pulse waves, sets the duty cycle. For noise,
mixes between pink and white noise.".to_owned(),
        Info::FreqRatio =>
"Frequency ratio of this generator compared to the
base frequency of the note. Integer values give
harmonic results when mixing or modulating multiple
generators.".to_owned(),
        Info::FilterCutoff =>
"Approximate frequency where the filter starts
attenuating input. Also the resonant.".to_owned(),
        Info::FilterResonance =>
"How much to emphasize frequencies near the cutoff
frequency.".to_owned(),
        Info::Attack => "Time to reach initial peak level.".to_owned(),
        Info::Decay => "Time to transition between peak and sustain levels.".to_owned(),
        Info::Sustain => "Minimum level to hold while note is on.".to_owned(),
        Info::Release =>
"Time to transition between sustain level and zero
after note is released.".to_owned(),
        Info::LfoDelay => "Time LFO takes to reach full amplitude.".to_owned(),
        Info::ModDepth =>
"Amount of modulation. Scale varies depending on
the destination.".to_owned(),
        Info::LoadScale =>
"Load a tuning from a Scala .scl file. The tuning
will be notated the same as an equal temperament
with the same number of notes.".to_owned(),
        Info::SavePatch => "Write the selected patch to disk.".to_owned(),
        Info::LoadPatch => "Load patches from disk.".to_owned(),
        Info::DuplicatePatch => "Create a copy of the selected patch.".to_owned(),
        Info::LoadSample =>
"Load an audio file from disk. For multichannel
audio, only the first channel will be used. Most
common audio formats are supported. Audio is
normalized when loading. Compressed formats will
use less space in a save file.".to_owned(),
        Info::PrevSample => "Load the previous sample in the directory.".to_owned(),
        Info::NextSample => "Load the next sample in the directory.".to_owned(),
        Info::DetectPitch =>
"Attempt to automatically set the sample pitch to
match the default oscillator pitch. Works best with
harmonic spectra and strong fundamentals.".to_owned(),
        Info::ResetSettings => "Reset all settings to defaults.".to_owned(),
        Info::Aftertouch =>
"If enabled, convert channel pressure and key pressure
messages to pressure values. If disabled, only
velocity is converted.".to_owned(),
        Info::TuningRoot =>
"Determines which note is mapped to the start of
the loaded scale. For equal-step scales, this has
no effect.".to_owned(),
        Info::KitNoteIn => "The note that activates this kit mapping.".to_owned(),
        Info::KitNoteOut => "The pitch that this kit mapping plays at.".to_owned(),
        Info::GlobalTrack => "Holds control events like tempo, loop, and end.".to_owned(),
        Info::KitTrack =>
"Uses the patch & note mappings from the Kit entry
in the Instruments tab.".to_owned(),
        Info::Add(s) => {
            let mut t = "Add ".to_owned();
            t.append(s);
            t.append(".");
            t
        },
        Info::Remove(s) => {
            let mut t = "Remove ".to_owned();
            t.append(s);
            t.append(".");
            t
        },
        Info::ResetTheme(variant) => {
            let mut t = "Reset colors to the default ".to_owned();
            t.append(variant);
            t.append(" theme.");
            t
        },
        Info::FontSize(op) => {
            let mut t = (*op).to_owned();
            t.append(" font size.");
            t
        },
        Info::Action(_) => String::new(),
    }
}

/// The actions whose hotkeys the info text of a control lists.
pub open spec fn info_actions(info: Info) -> Seq<Action> {
    match info {
        Info::Division => seq![
            Action::IncrementDivision,
            Action::DecrementDivision,
            Action::HalveDivision,
            Action::DoubleDivision,
        ],
        _ => Seq::empty(),
    }
}

/// The key text of the first binding of `action` in `keys`, from index `i`
/// on.
pub open spec fn key_text(keys: Seq<(Seq<char>, Action)>, action: Action, i: int) -> Option<Seq<char>>
    decreases keys.len() - i,
{
    if i < 0 || i >= keys.len() {
        None
    } else if keys[i].1 == action {
        Some(keys[i].0)
    } else {
        key_text(keys, action, i + 1)
    }
}

/// The text of the hotkey of `action`: the key text of its first binding
/// (or "(no hotkey)"), a dash and the action's name.
pub open spec fn hotkey_line(keys: Seq<(Seq<char>, Action)>, action: Action) -> Seq<char> {
    let k = match key_text(keys, action, 0) {
        Some(k) => k,
        None => "(no hotkey)"@,
    };
    k + " - "@ + action_name(action)
}

/// The key bindings with their key texts as character sequences.
pub open spec fn keys_view(keys: Seq<(String, Action)>) -> Seq<(Seq<char>, Action)> {
    keys.map_values(|p: (String, Action)| (p.0@, p.1))
}

/// Returns the hotkey text of `action`, given each key binding as the text
/// of its key and the action it triggers.
pub fn hotkey_string(keys: &Vec<(String, Action)>, action: Action) -> (r: String)
    ensures
        r@ == hotkey_line(keys_view(keys@), action),
{
    let ghost kv = keys_view(keys@);
    let mut i: usize = 0;
    while i < keys.len() && keys[i].1 != action
        invariant
            i <= keys.len(),
            kv == keys_view(keys@),
            key_text(kv, action, 0) == key_text(kv, action, i as int),
        decreases keys.len() - i,
    {
        proof {
            assert(kv[i as int].1 == keys@[i as int].1);
        }
        i = i + 1;
    }
    let mut r = if i < keys.len() {
        proof {
            assert(kv[i as int] == (keys@[i as int].0@, keys@[i as int].1));
        }
        keys[i].0.clone()
    } else {
        "(no hotkey)".to_owned()
    };
    r.append(" - ");
    r.append(action.name());
    r
}

/// `text` followed by the hotkey lines of `actions`, each on a line of its
/// own.
pub open spec fn with_hotkeys(text: Seq<char>, keys: Seq<(Seq<char>, Action)>, actions: Seq<Action>) -> Seq<char>
    decreases actions.len(),
{
    if actions.len() == 0 {
        text
    } else {
        let t = with_hotkeys(text, keys, actions.drop_last());
        (if t.len() > 0 { t + "\n"@ } else { t }) + hotkey_line(keys, actions.last())
    }
}

/// `text`, followed by a blank line where it is not empty.
pub open spec fn paragraph(text: Seq<char>) -> Seq<char> {
    if text.len() > 0 {
        text + "\n\n"@
    } else {
        text
    }
}

/// The info text of a control: its description, then the hotkeys of its
/// actions after a blank line, then the help for its kind of widget after
/// another.
pub open spec fn info_text(info: Info, ctrl: ControlInfo, keys: Seq<(Seq<char>, Action)>) -> Seq<char> {
    let d = info_description(info);
    let actions = info_actions(info);
    let t = if actions.len() > 0 {
        with_hotkeys(if d.len() > 0 { d + "\n"@ } else { d }, keys, actions)
    } else {
        d
    };
    match ctrl {
        ControlInfo::Blank => t,
        ControlInfo::Slider => paragraph(t) + "Right-click slider to edit value as text."@,
        ControlInfo::Note => paragraph(t) +
"Note input. Click to focus, then enter a note
using the keyboard."@,
        ControlInfo::Hotkey => paragraph(t) +
"Hotkey input. Click to focus, then press a key
combination to set value."@,
    }
}

/// Appends `s` after a blank line where the text is not empty.
fn push_paragraph(text: &mut String, s: &str)
    ensures
        final(text)@ == paragraph(old(text)@) + s@,
{
    if !text.as_str().is_empty() {
        text.append("\n\n");
    }
    text.append(s);
}

/// Returns the info text for a control, given each key binding as the
/// text of its key and the action it triggers.
pub fn text(info: &Info, ctrl: &ControlInfo, keys: &Vec<(String, Action)>) -> (r: String)
    ensures
        r@ == info_text(*info, *ctrl, keys_view(keys@)),
{
    let mut text = description(info);
    let actions: Vec<Action> = match info {
        Info::Division => vec![
            Action::IncrementDivision,
            Action::DecrementDivision,
            Action::HalveDivision,
            Action::DoubleDivision,
        ],
        _ => Vec::new(),
    };
    let ghost kv = keys_view(keys@);
    let ghost d = info_description(*info);
    proof {
        assert(actions@ =~= info_actions(*info));
    }
    if actions.len() > 0 {
        if !text.as_str().is_empty() {
            text.append("\n");
        }
        let ghost t0 = text@;
        let mut k: usize = 0;
        proof {
            assert(actions@.take(0) =~= Seq::<Action>::empty());
        }
        while k < actions.len()
            invariant
                k <= actions.len(),
                text@ == with_hotkeys(t0, kv, actions@.take(k as int)),
                kv == keys_view(keys@),
            decreases actions.len() - k,
        {
            proof {
                assert(actions@.take(k as int + 1).drop_last() =~= actions@.take(k as int));
            }
            if !text.as_str().is_empty() {
                text.append("\n");
            }
            let line = hotkey_string(keys, actions[k]);
            text.append(line.as_str());
            k = k + 1;
        }
        proof {
            assert(actions@.take(k as int) =~= actions@);
        }
    }
    match ctrl {
        ControlInfo::Blank => {},
        ControlInfo::Slider => push_paragraph(&mut text, "Right-click slider to edit value as text."),
        ControlInfo::Note => push_paragraph(&mut text,
"Note input. Click to focus, then enter a note
using the keyboard."),
        ControlInfo::Hotkey => push_paragraph(&mut text,
"Hotkey input. Click to focus, then press a key
combination to set value."),
    }
    text
}

} // verus!
