//! The capture engine's state: at most one recording is active at a
//! time; starting negotiates a format and opens a waveform writer before
//! any sample arrives; samples arriving while no recording is active are
//! silently discarded; stopping finalizes the writer and reports the
//! recording's format and duration.

use vstd::prelude::*;

use crate::textops::{str_eq, string_clone};
use crate::wav::{spec_encode_wav, WavWriter};

verus! {

/// An input device as shown to the user.
pub struct DeviceInfo {
    pub name: String,
    pub is_default: bool,
}

/// One supported input configuration of a device.
pub struct SupportedConfig {
    pub channels: u16,
    pub min_sample_rate: u32,
    pub max_sample_rate: u32,
}

/// What a completed recording produced.
pub struct RecordingResult {
    pub file_path: String,
    pub sample_rate: u32,
    pub channels: u16,
    /// Duration in milliseconds, rounded down.
    pub duration_millis: u64,
}

/// What can go wrong while recording.
#[derive(Debug)]
pub enum RecorderError {
    /// A recording is already in progress.
    AlreadyRecording,
    /// No recording is in progress.
    NotRecording,
    /// The audio subsystem or the chosen device is unavailable.
    DeviceUnavailable { message: String },
    /// Samples could not be written.
    WriteFailure { message: String },
}

/// The recorder: its writer exists exactly while a recording is active.
pub struct RecorderState {
    pub writer: Option<WavWriter>,
    pub file_path: Option<String>,
    pub sample_rate: u32,
    pub channels: u16,
}

impl RecorderState {
    /// Whether a recording is active.
    pub open spec fn recording(self) -> bool {
        self.writer is Some
    }

    /// Well-formed: an active writer is well-formed and carries the
    /// negotiated format, and the output path exists exactly while
    /// recording.
    pub open spec fn wf(self) -> bool {
        match self.writer {
            Some(w) => {
                &&& w.wf()
                &&& w.sample_rate == self.sample_rate
                &&& w.channels == self.channels
                &&& self.file_path is Some
            },
            None => self.file_path is None,
        }
    }

    /// A fresh recorder with no active recording and no format
    /// negotiated yet.
    pub fn new() -> (r: RecorderState)
        ensures
            r.wf(),
            !r.recording(),
            r.file_path is None,
            r.sample_rate == 0,
            r.channels == 0,
    {
        RecorderState { writer: None, file_path: None, sample_rate: 0, channels: 0 }
    }

    /// Whether a recording is active.
    pub fn is_recording(&self) -> (r: bool)
        ensures
            r == self.recording(),
    {
        self.writer.is_some()
    }

    /// Start a recording with the negotiated format, opening the writer
    /// before any sample can arrive. Fails when a recording is already
    /// active, leaving the state unchanged.
    pub fn start_recording(&mut self, sample_rate: u32, channels: u16, output_path: String) -> (r:
        Result<(), RecorderError>)
        requires
            old(self).wf(),
            1 <= channels,
            channels * 2 <= u16::MAX,
            1 <= sample_rate,
            sample_rate * channels * 2 <= u32::MAX,
        ensures
            final(self).wf(),
            r matches Err(e) ==> e is AlreadyRecording && old(self).recording() && *final(self)
                == *old(self),
            r is Ok ==> !old(self).recording(),
            r is Ok ==> {
                &&& final(self).recording()
                &&& final(self).sample_rate == sample_rate
                &&& final(self).channels == channels
                &&& final(self).writer matches Some(w) && w.samples@.len() == 0
                &&& final(self).file_path matches Some(p) && p@ == output_path@
            },
    {
        if self.writer.is_some() {
            return Err(RecorderError::AlreadyRecording);
        }
        self.sample_rate = sample_rate;
        self.channels = channels;
        self.file_path = Some(output_path);
        self.writer = Some(WavWriter::new(sample_rate, channels));
        Ok(())
    }

    /// Hand a block of converted samples to the writer. Samples arriving
    /// while no recording is active are silently discarded; a block that
    /// would no longer fit the container fails and changes nothing.
    pub fn append_samples(&mut self, samples: &Vec<i16>) -> (r: Result<(), RecorderError>)
        requires
            old(self).wf(),
        ensures
            final(self).wf(),
            final(self).recording() == old(self).recording(),
            final(self).sample_rate == old(self).sample_rate,
            final(self).channels == old(self).channels,
            final(self).file_path == old(self).file_path,
            !old(self).recording() ==> *final(self) == *old(self) && r is Ok,
            old(self).recording() ==> {
                let w_old = old(self).writer->0;
                let w_new = final(self).writer->0;
                &&& (r is Ok <==> 44 + 2 * (w_old.samples@.len() + samples@.len()) <= u32::MAX)
                &&& r is Ok ==> w_new.samples@ == w_old.samples@ + samples@
                &&& r matches Err(e) ==> e is WriteFailure && w_new.samples@ == w_old.samples@
            },
    {
        let writer_opt = self.writer.take();
        match writer_opt {
            None => Ok(()),
            Some(mut w) => {
                let ok = w.write_samples(samples);
                self.writer = Some(w);
                if ok {
                    Ok(())
                } else {
                    Err(
                        RecorderError::WriteFailure {
                            message: string_clone("Recording exceeds the waveform size limit"),
                        },
                    )
                }
            },
        }
    }

    /// Stop the recording: deactivate, finalize the writer, and report
    /// the negotiated format, the duration, and the complete waveform
    /// file image. Fails when no recording is active.
    pub fn stop_recording(&mut self) -> (r: Result<(RecordingResult, Vec<u8>), RecorderError>)
        requires
            old(self).wf(),
        ensures
            final(self).wf(),
            r matches Err(e) ==> e is NotRecording && !old(self).recording() && *final(self)
                == *old(self),
            r is Ok ==> old(self).recording(),
            r matches Ok(out) ==> {
                let w = old(self).writer->0;
                &&& !final(self).recording()
                &&& out.0.sample_rate == old(self).sample_rate
                &&& out.0.channels == old(self).channels
                &&& out.0.file_path@ == old(self).file_path->0@
                &&& out.0.duration_millis == w.samples@.len() as int * 1000 / (
                old(self).channels as int * old(self).sample_rate as int)
                &&& out.1@ == spec_encode_wav(
                    w.samples@,
                    old(self).sample_rate as int,
                    old(self).channels as int,
                )
            },
    {
        let writer = self.writer.take();
        match writer {
            None => Err(RecorderError::NotRecording),
            Some(w) => {
                let path = self.file_path.take();
                let file_path = match path {
                    Some(p) => p,
                    None => string_clone(""),
                };
                proof {
                    assert(old(self).file_path is Some);
                }
                let duration_millis = w.duration_millis();
                let bytes = w.finalize();
                let result = RecordingResult {
                    file_path,
                    sample_rate: self.sample_rate,
                    channels: self.channels,
                    duration_millis,
                };
                Ok((result, bytes))
            },
        }
    }
}

/// The first configuration suited to voice capture: single channel with
/// a minimum rate of exactly 16 kHz, as the transcription model prefers.
pub fn pick_voice_config(configs: &Vec<SupportedConfig>) -> (r: Option<usize>)
    ensures
        match r {
            Some(i) => {
                &&& i < configs@.len()
                &&& configs@[i as int].channels == 1
                &&& configs@[i as int].min_sample_rate == 16000
                &&& forall|j: int|
                    0 <= j < i ==> !((#[trigger] configs@[j]).channels == 1
                        && configs@[j].min_sample_rate == 16000)
            },
            None => forall|j: int|
                0 <= j < configs@.len() ==> !((#[trigger] configs@[j]).channels == 1
                    && configs@[j].min_sample_rate == 16000),
        },
{
    let n = configs.len();
    let mut i: usize = 0;
    while i < n
        invariant
            0 <= i <= n == configs@.len(),
            forall|j: int|
                0 <= j < i ==> !((#[trigger] configs@[j]).channels == 1
                    && configs@[j].min_sample_rate == 16000),
        decreases n - i,
    {
        if configs[i].channels == 1 && configs[i].min_sample_rate == 16000 {
            return Some(i);
        }
        i = i + 1;
    }
    None
}

/// The first device with the given name.
pub fn find_device_index(names: &Vec<String>, name: &str) -> (r: Option<usize>)
    ensures
        match r {
            Some(i) => i < names@.len() && names@[i as int]@ == name@,
            None => forall|j: int| 0 <= j < names@.len() ==> names@[j]@ != name@,
        },
{
    let n = names.len();
    let mut i: usize = 0;
    while i < n
        invariant
            0 <= i <= n == names@.len(),
            forall|j: int| 0 <= j < i ==> names@[j]@ != name@,
        decreases n - i,
    {
        if str_eq(names[i].as_str(), name) {
            return Some(i);
        }
        i = i + 1;
    }
    None
}

} // verus!
