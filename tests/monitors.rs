use biggest_monitor::monitor::{reconcile, Monitor, Monitors, ParseError, ParseErrorKind};

const OUTPUT: &str = "
Screen 0: minimum 320 x 200, current 2560 x 1440, maximum 16384 x 16384
eDP-1 connected primary (normal left inverted right x axis y axis)
   1920x1200     60.10 +  60.10    40.06
   1920x1080     60.10
   1600x1200     60.10
   1680x1050     60.10
   1400x1050     60.10
   1600x900      60.10
   1280x1024     60.10
   1400x900      60.10
   1280x960      60.10
   1440x810      60.10
   1368x768      60.10
   1280x800      60.10
   1280x720      60.10
   1024x768      60.10
   960x720       60.10
   928x696       60.10
   896x672       60.10
   1024x576      60.10
   960x600       60.10
   960x540       60.10
   800x600       60.10
   840x525       60.10
   864x486       60.10
   700x525       60.10
   800x450       60.10
   640x512       60.10
   700x450       60.10
   640x480       60.10
   720x405       60.09
   684x384       60.10
   640x360       60.09
   512x384       60.10
   512x288       60.09
   480x270       60.09
   400x300       60.10
   432x243       60.09
   320x240       60.10
   360x202       60.09
   320x180       60.09
DP-1 disconnected (normal left inverted right x axis y axis)
HDMI-1 disconnected (normal left inverted right x axis y axis)
DP-2 disconnected (normal left inverted right x axis y axis)
HDMI-2 disconnected (normal left inverted right x axis y axis)
DP-3 disconnected (normal left inverted right x axis y axis)
HDMI-3 disconnected (normal left inverted right x axis y axis)
HDMI-4 disconnected (normal left inverted right x axis y axis)
DP-1-0 disconnected (normal left inverted right x axis y axis)
DP-1-1 disconnected (normal left inverted right x axis y axis)
DP-1-2 disconnected (normal left inverted right x axis y axis)
DP-1-3 disconnected (normal left inverted right x axis y axis)
HDMI-1-0 connected 2560x1440+0+0 (normal left inverted right x axis y axis) 597mm x 336mm
   2560x1440     59.95*+
   2048x1080     60.00
   1920x1200     59.88
   1920x1080     60.00    59.94    50.00
   1680x1050     59.95
   1600x1200     60.00
   1280x1024     75.02    60.02
   1280x800      59.81
   1280x720      59.94    50.00
   1152x864      75.00
   1024x768      75.03    60.00
   800x600       75.00    60.32
   720x576       50.00
   720x480       59.94
   640x480       75.00    59.94    59.93";

const ACTIVE: &str = "Monitors: 1
 0: +*eDP-1 1920/344x1200/215+0+0  1920x1200/*  eDP-1
";

fn lines(v: &[&str]) -> Vec<String> {
    v.iter().map(|s| s.to_string()).collect()
}

fn monitor(name: &str, width: usize, height: usize) -> Monitor {
    Monitor { height, width, name: name.to_string(), refresh: String::new() }
}

#[test]
fn test_parse() {
    let chunks = Monitors::parse_xrandr_monitors(OUTPUT);
    let chunk_str = chunks
        .into_iter()
        .flatten()
        .collect::<Vec<String>>()
        .join("\n");
    assert_eq!(chunk_str.trim(), OUTPUT.trim());
}

#[test]
fn test_monitor_parse() {
    let monitors = Monitors::parse_xrandr_monitors(OUTPUT.trim_end())
        .into_iter()
        .filter(|chunks| !chunks[0].contains("disconnected") && chunks[0].contains("connected"))
        .map(|chunk| Monitor::parse_max_from_chunk(&chunk))
        .collect::<Result<Vec<Monitor>, ParseError>>()
        .map_err(|e| {
            println!("{:?}", e);
            e
        });

    assert_eq!(monitors.unwrap().len(), 2)
}

#[test]
fn chunks_round_trip_with_untrimmed_input() {
    let text = "\n  Screen 0: summary\nA connected x\n   800x600 60.00\nB disconnected x\n\n";
    let joined = Monitors::parse_xrandr_monitors(text)
        .into_iter()
        .flatten()
        .collect::<Vec<String>>()
        .join("\n");
    assert_eq!(joined, text.trim());
}

#[test]
fn chunks_start_at_header_lines() {
    let chunks = Monitors::parse_xrandr_monitors(OUTPUT);
    assert_eq!(chunks.len(), 14);
    assert_eq!(chunks[0].len(), 1);
    assert!(chunks[1][0].starts_with("eDP-1 connected"));
    assert_eq!(chunks[1].len(), 40);
    assert!(chunks[2][0].starts_with("DP-1 disconnected"));
    assert_eq!(chunks[2].len(), 1);
    assert!(chunks[13][0].starts_with("HDMI-1-0 connected"));
    assert_eq!(chunks[13].len(), 16);
}

#[test]
fn empty_report_has_no_chunk() {
    assert!(Monitors::parse_xrandr_monitors("   \n ").is_empty());
    assert!(Monitors::parse_xrandr_monitors("").is_empty());
    let monitors = Monitors::from_cli_text("").unwrap();
    assert!(monitors.monitors.is_empty());
}

#[test]
fn capability_report_end_to_end() {
    let possible = Monitors::from_cli_text(OUTPUT).unwrap();
    assert_eq!(possible.monitors.len(), 2);
    assert_eq!(possible.monitors[0].name, "eDP-1");
    assert_eq!(possible.monitors[0].width, 1920);
    assert_eq!(possible.monitors[0].height, 1200);
    assert_eq!(possible.monitors[0].refresh, "60.10");
    assert_eq!(possible.monitors[1].name, "HDMI-1-0");
    assert_eq!(possible.monitors[1].width, 2560);
    assert_eq!(possible.monitors[1].height, 1440);
    assert_eq!(possible.monitors[1].refresh, "59.95*+");
    assert_eq!(possible.get_biggest().name, "HDMI-1-0");

    let current = Monitors::get_current_from_list(ACTIVE).unwrap();
    assert_eq!(current.monitors.len(), 1);
    assert_eq!(current.get_biggest().name, "eDP-1");
    assert_eq!(current.monitors[0].width, 1920);
    assert_eq!(current.monitors[0].height, 1200);
    assert_eq!(current.monitors[0].refresh, "");

    let args = reconcile(&possible, &current).unwrap();
    assert_eq!(
        args,
        lines(&["--output", "eDP-1", "--off", "--output", "HDMI-1-0", "--mode", "2560x1440"])
    );
}

#[test]
fn header_without_mode_line_fails() {
    let text = "Screen 0: summary\nA connected primary\nB connected\n   800x600 60.00";
    let e = Monitors::from_cli_text(text).unwrap_err();
    assert_eq!(e.kind, ParseErrorKind::MissingModeLine);
    assert_eq!(e.fragment, "A connected primary");
}

#[test]
fn connected_header_at_end_fails() {
    let text = "Screen 0: summary\nA connected\n   800x600 60.00\nB connected";
    let e = Monitors::from_cli_text(text).unwrap_err();
    assert_eq!(e.kind, ParseErrorKind::MissingModeLine);
}

#[test]
fn disconnected_chunks_are_skipped() {
    let text = "Screen 0\nA disconnected x\n   garbage\nB connected x\n 1024x768 75.00 60.00";
    let ms = Monitors::from_cli_text(text).unwrap();
    assert_eq!(ms.monitors.len(), 1);
    assert_eq!(ms.monitors[0].name, "B");
    assert_eq!(ms.monitors[0].refresh, "75.00");
}

#[test]
fn connected_count_matches_chunks() {
    let text = "S\nA connected x\n 10x20 1\nB disconnected\nC connected y\n 30x40 2\nD connected z\n 5x6 3";
    let ms = Monitors::from_cli_text(text).unwrap();
    assert_eq!(ms.monitors.len(), 3);
}

#[test]
fn chunk_errors() {
    let e = Monitor::parse_max_from_chunk(&lines(&["noname", " 1x1 60"])).unwrap_err();
    assert_eq!(e.kind, ParseErrorKind::MissingName);
    let e = Monitor::parse_max_from_chunk(&lines(&["A connected", "  1920x1080  "])).unwrap_err();
    assert_eq!(e.kind, ParseErrorKind::MissingRefresh);
    assert_eq!(e.fragment, "1920x1080");
    let e = Monitor::parse_max_from_chunk(&lines(&["A connected", "1920-1080 60"])).unwrap_err();
    assert_eq!(e.kind, ParseErrorKind::MissingDimensions);
    assert_eq!(e.fragment, "1920-1080");
    let e = Monitor::parse_max_from_chunk(&lines(&["A connected", "19a0x1080 60"])).unwrap_err();
    assert_eq!(e.kind, ParseErrorKind::BadDimension);
    let e = Monitor::parse_max_from_chunk(&lines(&["A connected", "0x1080 60"])).unwrap_err();
    assert_eq!(e.kind, ParseErrorKind::BadDimension);
    let e = Monitor::parse_max_from_chunk(&lines(&["A connected", "99999999999999999999999x1 60"]))
        .unwrap_err();
    assert_eq!(e.kind, ParseErrorKind::BadDimension);
}

#[test]
fn chunk_with_single_refresh() {
    let m = Monitor::parse_max_from_chunk(&lines(&["DP-2 connected", "   3840x2160     60.00*"]))
        .unwrap();
    assert_eq!(m.name, "DP-2");
    assert_eq!(m.width, 3840);
    assert_eq!(m.height, 2160);
    assert_eq!(m.refresh, "60.00*");
}

#[test]
fn active_list_errors() {
    let e = Monitors::get_current_from_list("Monitors: 1\n eDP-1").unwrap_err();
    assert_eq!(e.kind, ParseErrorKind::MissingModeToken);
    let e = Monitors::get_current_from_list("Monitors: 1\n 0: 1920-1200 eDP-1").unwrap_err();
    assert_eq!(e.kind, ParseErrorKind::MissingDimensions);
    assert_eq!(e.fragment, "1920-1200");
    let e = Monitors::get_current_from_list("Monitors: 1\n 0: 1920/344x1200 eDP-1").unwrap_err();
    assert_eq!(e.kind, ParseErrorKind::BadDimension);
}

#[test]
fn active_list_strips_markers() {
    let ms = Monitors::get_current_from_list("Monitors: 2\n 0: +* 1920/*x1200/* eDP-1\n 1: + 2560x1440 HDMI-1-0\n")
        .unwrap();
    assert_eq!(ms.monitors.len(), 2);
    assert_eq!(ms.monitors[0].width, 1920);
    assert_eq!(ms.monitors[0].height, 1200);
    assert_eq!(ms.monitors[1].name, "HDMI-1-0");
    assert_eq!(ms.get_biggest().name, "HDMI-1-0");
}

#[test]
fn active_list_header_only() {
    assert!(Monitors::get_current_from_list("Monitors: 0\n").unwrap().monitors.is_empty());
    assert!(Monitors::get_current_from_list("").unwrap().monitors.is_empty());
}

#[test]
fn biggest_tie_goes_to_first() {
    let ms = Monitors {
        monitors: vec![
            monitor("A", 800, 600),
            monitor("B", 1920, 1080),
            monitor("C", 1920, 1200),
            monitor("D", 1920, 2000),
        ],
    };
    assert_eq!(ms.get_biggest().name, "B");
}

#[test]
fn set_strings_on_and_off() {
    let m = monitor("eDP-1", 1920, 1200);
    assert_eq!(m.set_strings(true), lines(&["--output", "eDP-1", "--mode", "1920x1200"]));
    assert_eq!(m.set_strings(false), lines(&["--output", "eDP-1", "--off"]));
    let m = monitor("X", 7, 10);
    assert_eq!(m.set_strings(true), lines(&["--output", "X", "--mode", "7x10"]));
}

#[test]
fn command_keeps_list_order() {
    let ms = Monitors {
        monitors: vec![monitor("A", 800, 600), monitor("B", 2560, 1440), monitor("C", 1024, 768)],
    };
    assert_eq!(
        ms.get_biggest_command_string(),
        lines(&[
            "--output", "A", "--off", "--output", "B", "--mode", "2560x1440", "--output", "C",
            "--off"
        ])
    );
}

#[test]
fn same_name_is_no_op() {
    let possible = Monitors { monitors: vec![monitor("A", 800, 600), monitor("B", 2560, 1440)] };
    let current = Monitors { monitors: vec![monitor("B", 1920, 1080)] };
    assert_eq!(reconcile(&possible, &current), None);
    assert_eq!(reconcile(&possible, &current), None);
}

#[test]
fn leading_plus_is_accepted() {
    let ms = Monitors::get_current_from_list("Monitors: 1\n 0: +5x+10 A").unwrap();
    assert_eq!(ms.monitors[0].width, 5);
    assert_eq!(ms.monitors[0].height, 10);
    let m = Monitor::parse_max_from_chunk(&lines(&["A connected", "+800x600 60"])).unwrap();
    assert_eq!(m.width, 800);
    let e = Monitors::get_current_from_list("Monitors: 1\n 0: ++5x10 A").unwrap_err();
    assert_eq!(e.kind, ParseErrorKind::BadDimension);
    let e = Monitor::parse_max_from_chunk(&lines(&["A connected", "+x600 60"])).unwrap_err();
    assert_eq!(e.kind, ParseErrorKind::BadDimension);
}

#[test]
fn one_line_report_is_the_summary_chunk() {
    let chunks = Monitors::parse_xrandr_monitors("Screen 0: summary\n");
    assert_eq!(chunks, vec![vec!["Screen 0: summary".to_string()]]);
    assert!(Monitors::from_cli_text("Screen 0: summary").unwrap().monitors.is_empty());
}

#[test]
fn header_name_skips_leading_whitespace() {
    let ms = Monitors::from_cli_text("S\n A connected\n 1x2 3").unwrap();
    assert_eq!(ms.monitors.len(), 1);
    assert_eq!(ms.monitors[0].name, "A");
    let m = Monitor::parse_max_from_chunk(&lines(&["\t DP-3 connected", "640x480 60"])).unwrap();
    assert_eq!(m.name, "DP-3");
    let e = Monitor::parse_max_from_chunk(&lines(&["   lonely", "640x480 60"])).unwrap_err();
    assert_eq!(e.kind, ParseErrorKind::MissingName);
}
