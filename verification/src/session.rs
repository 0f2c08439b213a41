//! The capture-session state machine around the filters: which camera is
//! open, which filter is active, and what the surrounding collaborator has to
//! do next. All I/O stays with that collaborator; it feeds events and
//! outcomes in as plain values and carries the returned actions out.

use vstd::prelude::*;
use vstd::string::StrSliceExecFns;

use crate::filters::FrameError;
use crate::filters::ParamsForParticle;
use crate::filters::Rgb;
use crate::filters::grayscale;
use crate::filters::grayscale_spec;
use crate::filters::particle;
use crate::filters::particle_tick_ok;
use crate::filters::reverse_rgb;
use crate::filters::seed_particle;

verus! {

broadcast use vstd::string::to_string_from_display_ensures_for_str;

/// Which filter runs on each captured frame.
#[derive(Copy, Clone, PartialEq, Eq, Structural, Debug)]
pub enum FilterType {
    Normal,
    Gray,
    Reverse,
    Particle,
}

/// Which video device node the session points at.
#[derive(Copy, Clone, PartialEq, Eq, Structural, Debug)]
pub enum CameraDevice {
    Video0,
    Video2,
}

impl CameraDevice {
    /// The device node path the collaborator has to open.
    pub fn path(&self) -> (r: &'static str)
        ensures
            *self == CameraDevice::Video0 ==> r@ == "/dev/video0"@,
            *self == CameraDevice::Video2 ==> r@ == "/dev/video2"@,
    {
        match self {
            CameraDevice::Video0 => "/dev/video0",
            CameraDevice::Video2 => "/dev/video2",
        }
    }

    /// The other device node.
    pub fn other(&self) -> (r: CameraDevice)
        ensures
            r == other_device(*self),
    {
        match self {
            CameraDevice::Video0 => CameraDevice::Video2,
            CameraDevice::Video2 => CameraDevice::Video0,
        }
    }
}

/// The device node the session falls back to when switching cameras.
pub open spec fn other_device(d: CameraDevice) -> CameraDevice {
    if d == CameraDevice::Video0 {
        CameraDevice::Video2
    } else {
        CameraDevice::Video0
    }
}

/// The events the surrounding collaborator feeds into the session.
pub enum Msg {
    ToggleCamera,
    CloseCamera,
    ChangeCamera,
    CapturePixbuf,
    ApplyNormal,
    ApplyGray,
    ApplyReverse,
    ApplyParticle,
    ChangeRed(String),
    ChangeGreen(String),
    ChangeBlue(String),
    Redraw,
    Quit,
}

/// What the collaborator has to perform after an update, outside this library:
/// open a device, count the video device nodes, capture and hand in a frame,
/// save the shown picture, or end the program.
#[derive(Copy, Clone, PartialEq, Eq, Structural, Debug)]
pub enum Action {
    Nothing,
    OpenCamera(CameraDevice),
    QueryDevices,
    CaptureFrame,
    SavePicture,
    Quit,
}

/// The session state: camera bookkeeping, the active and the previously
/// active filter, the particle tracker, and the color it aims at.
pub struct Model {
    pub camera_found: bool,
    pub camera_device: CameraDevice,
    pub camera_status: Option<CameraDevice>,
    pub camera_button_label: String,
    pub filter: FilterType,
    pub filter_prev: FilterType,
    pub particles: ParamsForParticle,
    pub target_rgb: Rgb,
}

/// The session window: its model and whether the image widget shows a frame.
pub struct Win {
    pub model: Model,
    pub image_shown: bool,
}

/// An owned copy of a label literal.
fn label_of(s: &str) -> (r: String)
    ensures
        r@ == s@,
{
    s.to_string()
}

/// A decimal digit.
pub open spec fn is_digit(c: char) -> bool {
    '0' <= c <= '9'
}

/// The numeric value of a digit character.
pub open spec fn digit_val(c: char) -> int {
    c as int - '0' as int
}

/// One or more decimal digits.
pub open spec fn all_digits(s: Seq<char>) -> bool {
    s.len() > 0 && forall|i: int| 0 <= i < s.len() ==> is_digit(#[trigger] s[i])
}

/// The value of a decimal digit string.
pub open spec fn dec_value(s: Seq<char>) -> int
    decreases s.len(),
{
    if s.len() == 0 {
        0
    } else {
        dec_value(s.drop_last()) * 10 + digit_val(s.last())
    }
}

/// The digits of a decimal string after an optional leading plus sign.
pub open spec fn digits_part(s: Seq<char>) -> Seq<char> {
    if s.len() > 0 && s[0] == '+' {
        s.skip(1)
    } else {
        s
    }
}

/// A string that `u8` accepts: an optional plus sign, then digits, with a
/// value of at most 255.
pub open spec fn valid_u8_str(s: Seq<char>) -> bool {
    all_digits(digits_part(s)) && dec_value(digits_part(s)) <= 255
}

/// The value of a digit-string prefix never exceeds the whole value.
proof fn lemma_dec_value_grows(s: Seq<char>, k: int)
    requires
        forall|i: int| 0 <= i < s.len() ==> is_digit(#[trigger] s[i]),
        0 <= k <= s.len(),
    ensures
        0 <= dec_value(s.take(k)) <= dec_value(s),
    decreases s.len(),
{
    lemma_dec_value_nonneg(s.take(k));
    lemma_dec_value_nonneg(s);
    if k < s.len() {
        assert(s.drop_last().take(k) =~= s.take(k));
        lemma_dec_value_grows(s.drop_last(), k);
        lemma_dec_value_nonneg(s.drop_last());
        assert(dec_value(s) == dec_value(s.drop_last()) * 10 + digit_val(s.last()));
        assert(dec_value(s.drop_last()) * 10 >= dec_value(s.drop_last())) by (nonlinear_arith)
            requires
                dec_value(s.drop_last()) >= 0,
        {}
    } else {
        assert(s.take(k) =~= s);
    }
}

/// A digit string has a nonnegative value.
proof fn lemma_dec_value_nonneg(s: Seq<char>)
    requires
        forall|i: int| 0 <= i < s.len() ==> is_digit(#[trigger] s[i]),
    ensures
        dec_value(s) >= 0,
    decreases s.len(),
{
    if s.len() > 0 {
        lemma_dec_value_nonneg(s.drop_last());
        assert(dec_value(s.drop_last()) * 10 >= 0) by (nonlinear_arith)
            requires
                dec_value(s.drop_last()) >= 0,
        {}
    }
}

/// Parses a decimal `u8` the way the standard parser accepts it: an optional
/// leading plus sign, one or more digits, a value of at most 255; anything
/// else is rejected.
pub fn parse_u8(s: &str) -> (r: Option<u8>)
    ensures
        valid_u8_str(s@) ==> r == Some(dec_value(digits_part(s@)) as u8),
        !valid_u8_str(s@) ==> r is None,
{
    let n = s.unicode_len();
    let start: usize = if n > 0 && s.get_char(0) == '+' {
        1
    } else {
        0
    };
    let ghost d = digits_part(s@);
    proof {
        assert(d =~= s@.skip(start as int));
    }
    if n == start {
        return None;
    }
    let mut acc: u32 = 0;
    let mut i: usize = start;
    while i < n
        invariant
            n == s@.len(),
            start <= i <= n,
            start < n,
            d == digits_part(s@),
            d =~= s@.skip(start as int),
            forall|j: int| 0 <= j < i - start ==> is_digit(#[trigger] d[j]),
            acc == dec_value(d.take(i - start)),
            acc <= 255,
        decreases n - i,
    {
        let c = s.get_char(i);
        let cv = c as u32;
        if cv < 48 || cv > 57 {
            proof {
                assert(d[i - start] == c);
                assert(!is_digit(c));
            }
            return None;
        }
        proof {
            assert(d.take(i - start + 1).drop_last() =~= d.take(i - start));
            assert(d.take(i - start + 1).last() == d[i - start]);
            assert(d[i - start] == c);
        }
        let next: u32 = acc * 10 + (cv - 48);
        if next > 255 {
            proof {
                assert(all_digits(d.take(i - start + 1)) ==> dec_value(d.take(i - start + 1))
                    == next);
                if all_digits(d) {
                    lemma_dec_value_grows(d, i - start + 1);
                    assert(dec_value(d) >= next > 255);
                }
            }
            return None;
        }
        acc = next;
        i = i + 1;
    }
    proof {
        assert(d.take(n - start) =~= d);
        assert(all_digits(d));
    }
    Some(acc as u8)
}

/// A freshly seeded tracker over the fixed 640 x 360 frame aiming at 10000
/// particles of the given target color.
pub open spec fn fresh_tracker(m: ParamsForParticle, t: Rgb) -> bool {
    &&& m.camera == (640i32, 360i32)
    &&& m.num == 10_000u32
    &&& m.center == (320i32, 180i32)
    &&& m.target_rgb == t
    &&& m.pars@.len() < 10_000
    &&& forall|i: int| 0 <= i < m.pars@.len() ==> seed_particle(#[trigger] m.pars@[i], (640i32, 360i32))
    &&& m.wf()
}

/// What one frame does to the tracker and the buffer when the particle filter
/// is active: either the full filter step went through, or the buffer was too
/// short for the frame size and nothing changed.
pub open spec fn particle_frame_post(
    pre: ParamsForParticle,
    post: ParamsForParticle,
    buf0: Seq<u8>,
    buf1: Seq<u8>,
    offs: Seq<(i32, i32)>,
    r: Result<(), FrameError>,
) -> bool {
    match r {
        Ok(()) => particle_tick_ok(pre, post, buf0, buf1, offs),
        Err(e) => {
            &&& e == FrameError::BufferTooShort
            &&& buf0.len() < 3 * pre.camera.0 * pre.camera.1
            &&& post == pre
            &&& buf1 == buf0
        },
    }
}

impl Win {
    /// The initial session state: no camera found or open, the default device,
    /// no filter, and a tracker seeded for black over a 640 x 360 frame.
    pub fn model() -> (m: Model)
        ensures
            m.camera_found == false,
            m.camera_device == CameraDevice::Video0,
            m.camera_status is None,
            m.camera_button_label@ == "Start Camera"@,
            m.filter == FilterType::Normal,
            m.filter_prev == FilterType::Normal,
            fresh_tracker(m.particles, Rgb { red: 0, green: 0, blue: 0 }),
            m.target_rgb == (Rgb { red: 0, green: 0, blue: 0 }),
    {
        Model {
            camera_found: false,
            camera_device: CameraDevice::Video0,
            camera_status: None,
            camera_button_label: label_of("Start Camera"),
            filter: FilterType::Normal,
            filter_prev: FilterType::Normal,
            particles: ParamsForParticle::new((640, 360), 10_000, Rgb::new(0, 0, 0)),
            target_rgb: Rgb::new(0, 0, 0),
        }
    }

    /// A fresh window around the initial state, its image widget empty.
    pub fn new() -> (w: Win)
        ensures
            w.model.camera_found == false,
            w.model.camera_device == CameraDevice::Video0,
            w.model.camera_status is None,
            w.model.camera_button_label@ == "Start Camera"@,
            w.model.filter == FilterType::Normal,
            w.model.filter_prev == FilterType::Normal,
            fresh_tracker(w.model.particles, Rgb { red: 0, green: 0, blue: 0 }),
            w.model.target_rgb == (Rgb { red: 0, green: 0, blue: 0 }),
            w.image_shown == false,
    {
        Win { model: Win::model(), image_shown: false }
    }

    /// Forgets the open camera; everything else stays.
    pub fn stop_camera(&mut self)
        ensures
            final(self).model.camera_status is None,
            final(self).model.camera_found == old(self).model.camera_found,
            final(self).model.camera_device == old(self).model.camera_device,
            final(self).model.camera_button_label == old(self).model.camera_button_label,
            final(self).model.filter == old(self).model.filter,
            final(self).model.filter_prev == old(self).model.filter_prev,
            final(self).model.particles == old(self).model.particles,
            final(self).model.target_rgb == old(self).model.target_rgb,
            final(self).image_shown == old(self).image_shown,
    {
        self.model.camera_status = None;
    }

    /// Stops an open camera, or asks the collaborator to open the configured
    /// device; the outcome of an open comes back through `camera_opened`.
    pub fn toggle_camera(&mut self) -> (a: Action)
        ensures
            old(self).model.camera_status is Some ==> {
                &&& a == Action::Nothing
                &&& final(self).model.camera_status is None
            },
            old(self).model.camera_status is None ==> {
                &&& a == Action::OpenCamera(old(self).model.camera_device)
                &&& final(self).model.camera_status is None
            },
            final(self).model.camera_found == old(self).model.camera_found,
            final(self).model.camera_device == old(self).model.camera_device,
            final(self).model.camera_button_label == old(self).model.camera_button_label,
            final(self).model.filter == old(self).model.filter,
            final(self).model.filter_prev == old(self).model.filter_prev,
            final(self).model.particles == old(self).model.particles,
            final(self).model.target_rgb == old(self).model.target_rgb,
            final(self).image_shown == old(self).image_shown,
    {
        if self.model.camera_status.is_some() {
            self.stop_camera();
            Action::Nothing
        } else {
            Action::OpenCamera(self.model.camera_device)
        }
    }

    /// Takes in the outcome of an attempted camera open: a success records the
    /// open device and relabels the button, a failure only relabels it.
    pub fn camera_opened(&mut self, opened: bool)
        ensures
            opened ==> {
                &&& final(self).model.camera_status == Some(old(self).model.camera_device)
                &&& final(self).model.camera_found == true
                &&& final(self).model.camera_button_label@ == "Pause Camera"@
            },
            !opened ==> {
                &&& final(self).model.camera_status == old(self).model.camera_status
                &&& final(self).model.camera_found == old(self).model.camera_found
                &&& (old(self).model.camera_found
                    ==> final(self).model.camera_button_label@ == "Start Camera"@)
                &&& (!old(self).model.camera_found
                    ==> final(self).model.camera_button_label@ == "Cannot open camera!"@)
            },
            final(self).model.camera_device == old(self).model.camera_device,
            final(self).model.filter == old(self).model.filter,
            final(self).model.filter_prev == old(self).model.filter_prev,
            final(self).model.particles == old(self).model.particles,
            final(self).model.target_rgb == old(self).model.target_rgb,
            final(self).image_shown == old(self).image_shown,
    {
        if opened {
            self.model.camera_status = Some(self.model.camera_device);
            self.model.camera_found = true;
            self.model.camera_button_label = label_of("Pause Camera");
        } else {
            if self.model.camera_found {
                self.model.camera_button_label = label_of("Start Camera");
            } else {
                self.model.camera_button_label = label_of("Cannot open camera!");
            }
        }
    }

    /// Forgets the open camera and clears the image widget.
    pub fn close_camera(&mut self)
        ensures
            final(self).model.camera_status is None,
            final(self).image_shown == false,
            final(self).model.camera_found == old(self).model.camera_found,
            final(self).model.camera_device == old(self).model.camera_device,
            final(self).model.camera_button_label == old(self).model.camera_button_label,
            final(self).model.filter == old(self).model.filter,
            final(self).model.filter_prev == old(self).model.filter_prev,
            final(self).model.particles == old(self).model.particles,
            final(self).model.target_rgb == old(self).model.target_rgb,
    {
        self.model.camera_status = None;
        self.image_shown = false;
    }

    /// Takes in how many video device nodes the collaborator counted: with the
    /// expected two nothing happens, otherwise the session closes the camera,
    /// switches to the other device, and asks to open it.
    pub fn devices_counted(&mut self, n_video_nodes: u64) -> (a: Action)
        ensures
            n_video_nodes == 2 ==> {
                &&& a == Action::Nothing
                &&& *final(self) == *old(self)
            },
            n_video_nodes != 2 ==> {
                &&& final(self).model.camera_device == other_device(old(self).model.camera_device)
                &&& a == Action::OpenCamera(final(self).model.camera_device)
                &&& final(self).model.camera_status is None
                &&& final(self).image_shown == false
                &&& final(self).model.camera_found == old(self).model.camera_found
                &&& final(self).model.camera_button_label
                    == old(self).model.camera_button_label
            },
            final(self).model.filter == old(self).model.filter,
            final(self).model.filter_prev == old(self).model.filter_prev,
            final(self).model.particles == old(self).model.particles,
            final(self).model.target_rgb == old(self).model.target_rgb,
    {
        if n_video_nodes != 2 {
            self.close_camera();
            self.model.camera_device = self.model.camera_device.other();
            Action::OpenCamera(self.model.camera_device)
        } else {
            Action::Nothing
        }
    }
}

/// One color channel.
#[derive(Copy, Clone, PartialEq, Eq, Structural, Debug)]
pub enum Channel {
    Red,
    Green,
    Blue,
}

/// The color with one channel replaced.
pub open spec fn set_channel(c: Rgb, ch: Channel, v: u8) -> Rgb {
    Rgb {
        red: if ch == Channel::Red {
            v
        } else {
            c.red
        },
        green: if ch == Channel::Green {
            v
        } else {
            c.green
        },
        blue: if ch == Channel::Blue {
            v
        } else {
            c.blue
        },
    }
}

/// The session with only the active filter changed.
pub open spec fn applied_filter(pre: Win, post: Win, f: FilterType) -> bool {
    &&& post.model.filter == f
    &&& post.model.filter_prev == pre.model.filter_prev
    &&& post.model.camera_found == pre.model.camera_found
    &&& post.model.camera_device == pre.model.camera_device
    &&& post.model.camera_status == pre.model.camera_status
    &&& post.model.camera_button_label == pre.model.camera_button_label
    &&& post.model.particles == pre.model.particles
    &&& post.model.target_rgb == pre.model.target_rgb
    &&& post.image_shown == pre.image_shown
}

/// The session after a color entry: a string the `u8` grammar accepts sets
/// that channel of the target color and of the tracker's copy of it; any
/// other string changes nothing. Everything else stays.
pub open spec fn changed_channel(pre: Win, post: Win, s: Seq<char>, ch: Channel) -> bool {
    &&& valid_u8_str(s) ==> {
        &&& post.model.target_rgb == set_channel(
            pre.model.target_rgb,
            ch,
            dec_value(digits_part(s)) as u8,
        )
        &&& post.model.particles.target_rgb == set_channel(
            pre.model.particles.target_rgb,
            ch,
            dec_value(digits_part(s)) as u8,
        )
    }
    &&& !valid_u8_str(s) ==> {
        &&& post.model.target_rgb == pre.model.target_rgb
        &&& post.model.particles.target_rgb == pre.model.particles.target_rgb
    }
    &&& post.model.particles.camera == pre.model.particles.camera
    &&& post.model.particles.num == pre.model.particles.num
    &&& post.model.particles.center == pre.model.particles.center
    &&& post.model.particles.pars == pre.model.particles.pars
    &&& post.model.filter == pre.model.filter
    &&& post.model.filter_prev == pre.model.filter_prev
    &&& post.model.camera_found == pre.model.camera_found
    &&& post.model.camera_device == pre.model.camera_device
    &&& post.model.camera_status == pre.model.camera_status
    &&& post.model.camera_button_label == pre.model.camera_button_label
    &&& post.image_shown == pre.image_shown
}

impl Win {
    /// Applies one event to the session and says what the collaborator has to
    /// do next. Filter choices and color edits change the state directly;
    /// camera opens, device queries, frame captures, and picture saves are
    /// handed back as actions, their outcomes fed in through `camera_opened`,
    /// `devices_counted` and `on_frame`.
    pub fn update(&mut self, event: Msg) -> (a: Action)
        ensures
            event matches Msg::ToggleCamera ==> {
                &&& final(self).model.target_rgb == old(self).model.target_rgb
                &&& final(self).model.filter == old(self).model.filter
                &&& (old(self).model.camera_status is Some ==> {
                    &&& a == Action::Nothing
                    &&& final(self).model.camera_status is None
                    &&& (old(self).model.camera_found
                        ==> final(self).model.camera_button_label@ == "Start Camera"@)
                    &&& (!old(self).model.camera_found
                        ==> final(self).model.camera_button_label@ == "Cannot open camera!"@)
                })
                &&& (old(self).model.camera_status is None ==> {
                    &&& a == Action::OpenCamera(old(self).model.camera_device)
                    &&& final(self).model.camera_status is None
                    &&& final(self).model.camera_button_label
                        == old(self).model.camera_button_label
                })
            },
            event matches Msg::CloseCamera ==> {
                &&& a == Action::Nothing
                &&& final(self).model.camera_status is None
                &&& final(self).image_shown == false
                &&& final(self).model.camera_button_label@ == "Start Camera"@
                &&& final(self).model.filter == old(self).model.filter
                &&& final(self).model.target_rgb == old(self).model.target_rgb
            },
            event matches Msg::ChangeCamera ==> {
                &&& a == Action::QueryDevices
                &&& *final(self) == *old(self)
            },
            event matches Msg::CapturePixbuf ==> {
                &&& *final(self) == *old(self)
                &&& (old(self).model.camera_status is Some <==> a == Action::SavePicture)
                &&& (old(self).model.camera_status is None <==> a == Action::Nothing)
            },
            event matches Msg::ApplyNormal ==> a == Action::Nothing && applied_filter(
                *old(self),
                *final(self),
                FilterType::Normal,
            ),
            event matches Msg::ApplyGray ==> a == Action::Nothing && applied_filter(
                *old(self),
                *final(self),
                FilterType::Gray,
            ),
            event matches Msg::ApplyReverse ==> a == Action::Nothing && applied_filter(
                *old(self),
                *final(self),
                FilterType::Reverse,
            ),
            event matches Msg::ApplyParticle ==> a == Action::Nothing && applied_filter(
                *old(self),
                *final(self),
                FilterType::Particle,
            ),
            event matches Msg::ChangeRed(rs) ==> a == Action::Nothing && changed_channel(
                *old(self),
                *final(self),
                rs@,
                Channel::Red,
            ),
            event matches Msg::ChangeGreen(gs) ==> a == Action::Nothing && changed_channel(
                *old(self),
                *final(self),
                gs@,
                Channel::Green,
            ),
            event matches Msg::ChangeBlue(bs) ==> a == Action::Nothing && changed_channel(
                *old(self),
                *final(self),
                bs@,
                Channel::Blue,
            ),
            event matches Msg::Redraw ==> {
                &&& *final(self) == *old(self)
                &&& (old(self).model.camera_status is Some <==> a == Action::CaptureFrame)
                &&& (old(self).model.camera_status is None <==> a == Action::Nothing)
            },
            event matches Msg::Quit ==> a == Action::Quit && *final(self) == *old(self),
    {
        match event {
            Msg::ToggleCamera => {
                let a = self.toggle_camera();
                if a == Action::Nothing {
                    if self.model.camera_found {
                        self.model.camera_button_label = label_of("Start Camera");
                    } else {
                        self.model.camera_button_label = label_of("Cannot open camera!");
                    }
                }
                a
            },
            Msg::CloseCamera => {
                self.close_camera();
                self.model.camera_button_label = label_of("Start Camera");
                Action::Nothing
            },
            Msg::ChangeCamera => Action::QueryDevices,
            Msg::CapturePixbuf => {
                if self.model.camera_status.is_some() {
                    Action::SavePicture
                } else {
                    Action::Nothing
                }
            },
            Msg::ApplyNormal => {
                self.model.filter = FilterType::Normal;
                Action::Nothing
            },
            Msg::ApplyGray => {
                self.model.filter = FilterType::Gray;
                Action::Nothing
            },
            Msg::ApplyReverse => {
                self.model.filter = FilterType::Reverse;
                Action::Nothing
            },
            Msg::ApplyParticle => {
                self.model.filter = FilterType::Particle;
                Action::Nothing
            },
            Msg::ChangeRed(red_string) => {
                let red = parse_u8(red_string.as_str());
                if let Some(v) = red {
                    self.model.particles.target_rgb.red = v;
                    self.model.target_rgb.red = v;
                }
                Action::Nothing
            },
            Msg::ChangeGreen(green_string) => {
                let green = parse_u8(green_string.as_str());
                if let Some(v) = green {
                    self.model.particles.target_rgb.green = v;
                    self.model.target_rgb.green = v;
                }
                Action::Nothing
            },
            Msg::ChangeBlue(blue_string) => {
                let blue = parse_u8(blue_string.as_str());
                if let Some(v) = blue {
                    self.model.particles.target_rgb.blue = v;
                    self.model.target_rgb.blue = v;
                }
                Action::Nothing
            },
            Msg::Redraw => {
                if self.model.camera_status.is_some() {
                    Action::CaptureFrame
                } else {
                    Action::Nothing
                }
            },
            Msg::Quit => Action::Quit,
        }
    }
}

impl Win {
    /// Takes in one captured frame as a raw interleaved buffer and applies the
    /// active filter to it in place: nothing, grayscale, inversion, or one
    /// full particle filter step fed by the raw diffusion offsets. On the
    /// transition into particle mode the tracker is reseeded over the fixed
    /// 640 x 360 frame first. A buffer too short for the particle filter's
    /// frame is rejected and nothing changes; otherwise the frame counts as
    /// shown and the active filter becomes the previous one.
    pub fn on_frame(&mut self, buf: &mut Vec<u8>, offsets: &Vec<(i32, i32)>) -> (r: Result<
        (),
        FrameError,
    >)
        requires
            old(self).model.particles.wf(),
            offsets@.len() >= old(self).model.particles.num,
            offsets@.len() >= 10_000,
            old(buf)@.len() + 3 <= usize::MAX,
        ensures
            final(self).model.particles.wf(),
            final(self).model.camera_found == old(self).model.camera_found,
            final(self).model.camera_device == old(self).model.camera_device,
            final(self).model.camera_status == old(self).model.camera_status,
            final(self).model.camera_button_label == old(self).model.camera_button_label,
            final(self).model.filter == old(self).model.filter,
            final(self).model.target_rgb == old(self).model.target_rgb,
            r is Ok ==> {
                &&& final(self).model.filter_prev == old(self).model.filter
                &&& final(self).image_shown == true
            },
            r is Err ==> {
                &&& final(self).model.filter_prev == old(self).model.filter_prev
                &&& final(self).image_shown == old(self).image_shown
            },
            old(self).model.filter == FilterType::Normal ==> {
                &&& r is Ok
                &&& final(buf)@ == old(buf)@
                &&& final(self).model.particles == old(self).model.particles
            },
            old(self).model.filter == FilterType::Gray ==> {
                &&& r is Ok
                &&& final(buf)@ == grayscale_spec(old(buf)@, 3)
                &&& final(self).model.particles == old(self).model.particles
            },
            old(self).model.filter == FilterType::Reverse ==> {
                &&& r is Ok
                &&& final(buf)@.len() == old(buf)@.len()
                &&& forall|i: int|
                    0 <= i < old(buf)@.len() ==> final(buf)@[i] == 255 - old(buf)@[i]
                &&& final(self).model.particles == old(self).model.particles
            },
            old(self).model.filter == FilterType::Particle && old(self).model.filter_prev
                != FilterType::Particle ==> exists|fresh: ParamsForParticle|
                {
                    &&& #[trigger] fresh_tracker(fresh, old(self).model.target_rgb)
                    &&& particle_frame_post(
                        fresh,
                        final(self).model.particles,
                        old(buf)@,
                        final(buf)@,
                        offsets@,
                        r,
                    )
                },
            old(self).model.filter == FilterType::Particle && old(self).model.filter_prev
                == FilterType::Particle ==> particle_frame_post(
                old(self).model.particles,
                final(self).model.particles,
                old(buf)@,
                final(buf)@,
                offsets@,
                r,
            ),
    {
        if self.model.filter == FilterType::Particle && self.model.filter_prev
            != FilterType::Particle {
            self.model.particles = ParamsForParticle::new(
                (640, 360),
                10_000,
                self.model.target_rgb,
            );
        }
        let ghost pre_particles = self.model.particles;
        let ghost buf0 = buf@;
        let r: Result<(), FrameError> = match self.model.filter {
            FilterType::Gray => {
                grayscale(buf, 3);
                Ok(())
            },
            FilterType::Reverse => {
                reverse_rgb(buf);
                Ok(())
            },
            FilterType::Particle => particle(buf, &mut self.model.particles, offsets),
            FilterType::Normal => Ok(()),
        };
        if r.is_ok() {
            self.image_shown = true;
            self.model.filter_prev = self.model.filter;
        }
        proof {
            if old(self).model.filter == FilterType::Particle && old(self).model.filter_prev
                != FilterType::Particle {
                assert(fresh_tracker(pre_particles, old(self).model.target_rgb));
                assert(particle_frame_post(
                    pre_particles,
                    self.model.particles,
                    buf0,
                    buf@,
                    offsets@,
                    r,
                ));
            }
        }
        r
    }
}

} // verus!
