use easy_cap::filters::Rgb;
use easy_cap::session::Action;
use easy_cap::session::CameraDevice;
use easy_cap::session::FilterType;
use easy_cap::session::Msg;
use easy_cap::session::Win;
use easy_cap::session::parse_u8;

#[test]
fn a_fresh_window_is_idle() {
    let w = Win::new();
    assert!(!w.model.camera_found);
    assert_eq!(w.model.camera_device, CameraDevice::Video0);
    assert!(w.model.camera_status.is_none());
    assert_eq!(w.model.camera_button_label, "Start Camera");
    assert_eq!(w.model.filter, FilterType::Normal);
    assert_eq!(w.model.filter_prev, FilterType::Normal);
    assert_eq!(w.model.target_rgb, Rgb::new(0, 0, 0));
    assert_eq!(w.model.particles.camera, (640, 360));
    assert_eq!(w.model.particles.num, 10_000);
    assert!(!w.image_shown);
}

#[test]
fn device_paths_and_switching() {
    assert_eq!(CameraDevice::Video0.path(), "/dev/video0");
    assert_eq!(CameraDevice::Video2.path(), "/dev/video2");
    assert_eq!(CameraDevice::Video0.other(), CameraDevice::Video2);
    assert_eq!(CameraDevice::Video2.other(), CameraDevice::Video0);
}

#[test]
fn toggling_a_closed_camera_asks_for_an_open() {
    let mut w = Win::new();
    let a = w.update(Msg::ToggleCamera);
    assert_eq!(a, Action::OpenCamera(CameraDevice::Video0));
    assert!(w.model.camera_status.is_none());
    w.camera_opened(true);
    assert_eq!(w.model.camera_status, Some(CameraDevice::Video0));
    assert!(w.model.camera_found);
    assert_eq!(w.model.camera_button_label, "Pause Camera");
}

#[test]
fn toggling_an_open_camera_stops_it() {
    let mut w = Win::new();
    let _ = w.update(Msg::ToggleCamera);
    w.camera_opened(true);
    let a = w.update(Msg::ToggleCamera);
    assert_eq!(a, Action::Nothing);
    assert!(w.model.camera_status.is_none());
    assert_eq!(w.model.camera_button_label, "Start Camera");
}

#[test]
fn a_failed_open_reports_on_the_button() {
    let mut w = Win::new();
    let _ = w.update(Msg::ToggleCamera);
    w.camera_opened(false);
    assert!(w.model.camera_status.is_none());
    assert!(!w.model.camera_found);
    assert_eq!(w.model.camera_button_label, "Cannot open camera!");
}

#[test]
fn closing_the_camera_clears_the_image() {
    let mut w = Win::new();
    let _ = w.update(Msg::ToggleCamera);
    w.camera_opened(true);
    w.image_shown = true;
    let a = w.update(Msg::CloseCamera);
    assert_eq!(a, Action::Nothing);
    assert!(w.model.camera_status.is_none());
    assert!(!w.image_shown);
    assert_eq!(w.model.camera_button_label, "Start Camera");
}

#[test]
fn stop_camera_only_forgets_the_handle() {
    let mut w = Win::new();
    let _ = w.update(Msg::ToggleCamera);
    w.camera_opened(true);
    w.image_shown = true;
    w.stop_camera();
    assert!(w.model.camera_status.is_none());
    assert!(w.image_shown);
    assert!(w.model.camera_found);
}

#[test]
fn changing_cameras_queries_the_device_nodes() {
    let mut w = Win::new();
    assert_eq!(w.update(Msg::ChangeCamera), Action::QueryDevices);
    let a = w.devices_counted(3);
    assert_eq!(a, Action::OpenCamera(CameraDevice::Video2));
    assert_eq!(w.model.camera_device, CameraDevice::Video2);
    assert!(w.model.camera_status.is_none());
    let a = w.devices_counted(2);
    assert_eq!(a, Action::Nothing);
    assert_eq!(w.model.camera_device, CameraDevice::Video2);
}

#[test]
fn capture_saves_only_with_an_open_camera() {
    let mut w = Win::new();
    assert_eq!(w.update(Msg::CapturePixbuf), Action::Nothing);
    let _ = w.update(Msg::ToggleCamera);
    w.camera_opened(true);
    assert_eq!(w.update(Msg::CapturePixbuf), Action::SavePicture);
}

#[test]
fn redraw_captures_only_with_an_open_camera() {
    let mut w = Win::new();
    assert_eq!(w.update(Msg::Redraw), Action::Nothing);
    let _ = w.update(Msg::ToggleCamera);
    w.camera_opened(true);
    assert_eq!(w.update(Msg::Redraw), Action::CaptureFrame);
}

#[test]
fn filter_events_set_the_active_filter() {
    let mut w = Win::new();
    assert_eq!(w.update(Msg::ApplyGray), Action::Nothing);
    assert_eq!(w.model.filter, FilterType::Gray);
    assert_eq!(w.update(Msg::ApplyReverse), Action::Nothing);
    assert_eq!(w.model.filter, FilterType::Reverse);
    assert_eq!(w.update(Msg::ApplyParticle), Action::Nothing);
    assert_eq!(w.model.filter, FilterType::Particle);
    assert_eq!(w.update(Msg::ApplyNormal), Action::Nothing);
    assert_eq!(w.model.filter, FilterType::Normal);
    assert_eq!(w.model.filter_prev, FilterType::Normal);
}

#[test]
fn quit_is_passed_through() {
    let mut w = Win::new();
    assert_eq!(w.update(Msg::Quit), Action::Quit);
}

#[test]
fn color_entries_set_both_copies_of_the_target() {
    let mut w = Win::new();
    assert_eq!(w.update(Msg::ChangeRed(String::from("200"))), Action::Nothing);
    assert_eq!(w.update(Msg::ChangeGreen(String::from("+30"))), Action::Nothing);
    assert_eq!(w.update(Msg::ChangeBlue(String::from("007"))), Action::Nothing);
    assert_eq!(w.model.target_rgb, Rgb::new(200, 30, 7));
    assert_eq!(w.model.particles.target_rgb, Rgb::new(200, 30, 7));
    // A rejected entry changes nothing.
    assert_eq!(w.update(Msg::ChangeRed(String::from("256"))), Action::Nothing);
    assert_eq!(w.update(Msg::ChangeGreen(String::from(""))), Action::Nothing);
    assert_eq!(w.update(Msg::ChangeBlue(String::from("1a"))), Action::Nothing);
    assert_eq!(w.model.target_rgb, Rgb::new(200, 30, 7));
}

#[test]
fn parse_u8_accepts_what_the_standard_parser_accepts() {
    assert_eq!(parse_u8("0"), Some(0));
    assert_eq!(parse_u8("255"), Some(255));
    assert_eq!(parse_u8("007"), Some(7));
    assert_eq!(parse_u8("+17"), Some(17));
    assert_eq!(parse_u8("000000000200"), Some(200));
    assert_eq!(parse_u8("256"), None);
    assert_eq!(parse_u8("9999999999"), None);
    assert_eq!(parse_u8(""), None);
    assert_eq!(parse_u8("+"), None);
    assert_eq!(parse_u8("-1"), None);
    assert_eq!(parse_u8("12a"), None);
    assert_eq!(parse_u8(" 12"), None);
}

#[test]
fn frames_run_the_active_filter_in_place() {
    let mut w = Win::new();
    let offsets: Vec<(i32, i32)> = vec![(0, 0); 10_000];
    let _ = w.update(Msg::ApplyGray);
    let mut buf: Vec<u8> = vec![255, 0, 0, 0, 255, 0];
    let r = w.on_frame(&mut buf, &offsets);
    assert_eq!(r, Ok(()));
    assert_eq!(buf, vec![76, 76, 76, 149, 149, 149]);
    assert!(w.image_shown);
    assert_eq!(w.model.filter_prev, FilterType::Gray);

    let _ = w.update(Msg::ApplyReverse);
    let mut buf: Vec<u8> = vec![0, 255, 10];
    let r = w.on_frame(&mut buf, &offsets);
    assert_eq!(r, Ok(()));
    assert_eq!(buf, vec![255, 0, 245]);
    assert_eq!(w.model.filter_prev, FilterType::Reverse);
}

#[test]
fn entering_particle_mode_reseeds_the_tracker() {
    let mut w = Win::new();
    let offsets: Vec<(i32, i32)> = vec![(0, 0); 10_000];
    let _ = w.update(Msg::ChangeRed(String::from("10")));
    let _ = w.update(Msg::ApplyParticle);
    // A white frame of the tracker's fixed 640x360 size.
    let mut buf: Vec<u8> = vec![255; 640 * 360 * 3];
    let r = w.on_frame(&mut buf, &offsets);
    assert_eq!(r, Ok(()));
    assert_eq!(w.model.filter_prev, FilterType::Particle);
    assert_eq!(w.model.particles.camera, (640, 360));
    assert_eq!(w.model.particles.num, 10_000);
    assert_eq!(w.model.particles.target_rgb, Rgb::new(10, 0, 0));
    // After the reseed one full tick ran; the population never overshoots
    // the target count.
    assert!(w.model.particles.pars.len() <= 10_000);
    assert!(w.image_shown);
}

#[test]
fn a_short_frame_in_particle_mode_changes_nothing() {
    let mut w = Win::new();
    let offsets: Vec<(i32, i32)> = vec![(0, 0); 10_000];
    let _ = w.update(Msg::ApplyParticle);
    let mut buf: Vec<u8> = vec![1, 2, 3];
    let before = buf.clone();
    let r = w.on_frame(&mut buf, &offsets);
    assert!(r.is_err());
    assert_eq!(buf, before);
    assert!(!w.image_shown);
    assert_eq!(w.model.filter_prev, FilterType::Normal);
}
