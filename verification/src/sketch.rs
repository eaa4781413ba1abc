//! The generative sketches of the memex: their colors, their canvas and the
//! recorder that saves their frames as numbered images.
use vstd::prelude::*;
use crate::entry::{push_zero_padded, zero_pad};
use crate::text::{decimal_seq, push_str};

verus! {

/// A color with an opacity, each channel a byte.
#[derive(Debug, Clone, Copy, PartialEq, Eq, Structural)]
pub struct Rgba {
    pub red: u8,
    pub green: u8,
    pub blue: u8,
    pub alpha: u8,
}

/// The memex's teal, faint.
pub fn teal() -> (res: Rgba)
    ensures
        res == (Rgba { red: 114, green: 196, blue: 208, alpha: 75 }),
{
    Rgba { red: 114, green: 196, blue: 208, alpha: 75 }
}

/// The memex's seafoam green, faint.
pub fn seafoam() -> (res: Rgba)
    ensures
        res == (Rgba { red: 165, green: 214, blue: 195, alpha: 75 }),
{
    Rgba { red: 165, green: 214, blue: 195, alpha: 75 }
}

/// A color drawn at random: `opacity_roll` is drawn from 50 to 74 and
/// `choice` from 0 to 3. Choices 0 and 1 give teal and seafoam with an
/// opacity 25 above the roll, 2 a half-transparent white, and any other a
/// half-transparent near-black grey.
pub fn random_color(opacity_roll: i32, choice: i32) -> (res: Rgba)
    requires
        50 <= opacity_roll < 75,
    ensures
        choice == 0 ==> res == (Rgba { red: 114, green: 196, blue: 208, alpha: (opacity_roll + 25) as u8 }),
        choice == 1 ==> res == (Rgba { red: 165, green: 214, blue: 195, alpha: (opacity_roll + 25) as u8 }),
        choice == 2 ==> res == (Rgba { red: 255, green: 255, blue: 255, alpha: 100 }),
        choice != 0 && choice != 1 && choice != 2 ==> res == (Rgba { red: 10, green: 10, blue: 10, alpha: 100 }),
{
    let random_opacity: i32 = opacity_roll + 25;
    let teal = Rgba { red: 114, green: 196, blue: 208, alpha: random_opacity as u8 };
    let seafoam = Rgba { red: 165, green: 214, blue: 195, alpha: random_opacity as u8 };
    let grey = Rgba { red: 10, green: 10, blue: 10, alpha: 100 };
    let white = Rgba { red: 255, green: 255, blue: 255, alpha: 100 };
    match choice {
        0 => teal,
        1 => seafoam,
        2 => white,
        _ => grey,
    }
}

/// The name of the sketch, which starts the name of each saved frame.
pub const PROJ: &'static str = "template";
/// Rows of the grid of the canvas.
pub const ROWS: u32 = 22;
/// Columns of the grid of the canvas.
pub const COLS: u32 = 12;
/// The side of a grid cell, in pixels.
pub const SIZE: u32 = 30;
/// The margin around the grid, in pixels.
pub const MARGIN: u32 = 35;
/// The width of the canvas: the grid and its margins.
pub const WIDTH: u32 = COLS * SIZE + 2 * MARGIN;
/// The height of the canvas: the grid and its margins.
pub const HEIGHT: u32 = ROWS * SIZE + 2 * MARGIN;
/// The last frame number a recording saves.
pub const LAST_FRAME: u32 = 9999;

/// The state of a sketch's recorder.
pub struct Model {
    /// Where the frames are saved.
    pub frames_dir: String,
    /// The number of the last frame saved.
    pub cur_frame: u32,
    /// Whether frames are being saved.
    pub recording: bool,
}

/// The state of a new sketch of the program `exe_name`: not recording, its
/// frames going to `<exe_name>_frames`.
pub fn model(exe_name: &str) -> (res: Model)
    ensures
        res.frames_dir@ == exe_name@ + "_frames"@,
        res.cur_frame == 0,
        !res.recording,
{
    let mut frames_dir = String::new();
    push_str(&mut frames_dir, exe_name);
    push_str(&mut frames_dir, "_frames");
    Model { frames_dir, cur_frame: 0, recording: false }
}

/// The file of frame number `n`: `<frames_dir>/template<nnnn>.png`, the
/// number padded with zeros to four digits.
pub open spec fn frame_file(frames_dir: Seq<char>, n: nat) -> Seq<char> {
    frames_dir + "/"@ + PROJ@ + zero_pad(decimal_seq(n), 4) + ".png"@
}

/// One update of a sketch after `elapsed_frames` frames: while recording,
/// every second frame advances the frame number and names the file to save
/// the frame to, until the number passes 9999, which ends the recording.
pub fn update(model: &mut Model, elapsed_frames: u64) -> (res: Option<String>)
    requires
        old(model).recording ==> old(model).cur_frame < u32::MAX,
    ensures
        final(model).frames_dir == old(model).frames_dir,
        !(old(model).recording && elapsed_frames % 2 == 0) ==> (res is None && final(model).cur_frame == old(model).cur_frame
            && final(model).recording == old(model).recording),
        old(model).recording && elapsed_frames % 2 == 0 ==> {
            &&& final(model).cur_frame == old(model).cur_frame + 1
            &&& final(model).recording == (old(model).cur_frame + 1 <= LAST_FRAME)
            &&& old(model).cur_frame + 1 > LAST_FRAME ==> res is None
            &&& old(model).cur_frame + 1 <= LAST_FRAME ==> (res matches Some(f) && f@ == frame_file(old(model).frames_dir@, (old(model).cur_frame + 1) as nat))
        },
{
    if model.recording && elapsed_frames % 2 == 0 {
        model.cur_frame = model.cur_frame + 1;
        if model.cur_frame > LAST_FRAME {
            model.recording = false;
            None
        } else {
            let mut filename = String::new();
            push_str(&mut filename, model.frames_dir.as_str());
            push_str(&mut filename, "/");
            push_str(&mut filename, PROJ);
            push_zero_padded(&mut filename, model.cur_frame as u64, 4);
            push_str(&mut filename, ".png");
            Some(filename)
        }
    } else {
        None
    }
}

/// The keys a sketch answers to.
#[derive(Debug, Clone, Copy, PartialEq, Eq, Structural)]
pub enum SketchKey {
    R,
    S,
    Right,
    Left,
    Other,
}

/// What a key press asks of the program around the sketch.
#[derive(Debug, Clone, Copy, PartialEq, Eq, Structural)]
pub enum KeyAction {
    /// Nothing.
    Nothing,
    /// Recording starts: the frames folder must exist.
    StartRecording,
    /// Recording stops.
    StopRecording,
    /// The current frame is saved as `<program name>.png`.
    SaveFrame,
}

/// A key press: `R` starts recording from frame 0, or stops it; `S` saves
/// the current frame; other keys do nothing.
pub fn key_pressed(model: &mut Model, key: SketchKey) -> (res: KeyAction)
    ensures
        final(model).frames_dir == old(model).frames_dir,
        key == SketchKey::R && old(model).recording ==> res == KeyAction::StopRecording && !final(model).recording
            && final(model).cur_frame == old(model).cur_frame,
        key == SketchKey::R && !old(model).recording ==> res == KeyAction::StartRecording && final(model).recording
            && final(model).cur_frame == 0,
        key != SketchKey::R ==> final(model).recording == old(model).recording && final(model).cur_frame == old(model).cur_frame,
        key == SketchKey::S ==> res == KeyAction::SaveFrame,
        key != SketchKey::R && key != SketchKey::S ==> res == KeyAction::Nothing,
{
    match key {
        SketchKey::R => {
            if model.recording {
                model.recording = false;
                KeyAction::StopRecording
            } else {
                model.recording = true;
                model.cur_frame = 0;
                KeyAction::StartRecording
            }
        },
        SketchKey::S => KeyAction::SaveFrame,
        SketchKey::Right => KeyAction::Nothing,
        SketchKey::Left => KeyAction::Nothing,
        SketchKey::Other => KeyAction::Nothing,
    }
}

} // verus!
