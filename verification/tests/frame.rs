use voxel_sandbox::camera::Camera;
use voxel_sandbox::chunk::ChunkType;
use voxel_sandbox::manager::{ChunkManager, FrameInput, IndicatorState};
use voxel_sandbox::shell::{Controls, Message, TextColumn};

fn fixed_camera() -> Camera {
    // ten thousand units above the origin, looking straight down the
    // world axes; the view basis spans x and z
    Camera {
        eye: [0, 10_000_000, 0],
        target: [0, 0, 0],
        forward: [0, 0, 1000],
        left: [1000, 0, 0],
    }
}

fn quiet_input() -> FrameInput {
    FrameInput {
        dt_milli: 16,
        is_tab: false,
        is_control: false,
        is_alt: false,
        is_next: false,
        is_prior: false,
        mouse_left: false,
        scroll: 0,
        shell_color: [700, 700, 700],
        mouse_x: 0,
        mouse_y: 0,
        texture_w: 0,
        texture_h: 0,
    }
}

#[test]
fn targeting_finds_the_voxel_below() {
    let mut m = ChunkManager::new();
    m.place([0, 100, 0], [0, 100, 0], [0, 0, 0, 1000], false, ChunkType::Persistent, 13);
    let cam = fixed_camera();
    let (pos, found) = m.target_voxel(&cam, 0, 0, false, false, false, 64);
    assert!(found);
    assert_eq!(pos, [0, 100, 0]);
}

#[test]
fn targeting_is_deterministic() {
    // a fixed camera, fixed voxels and a fixed cursor: two queries agree
    let mut m = ChunkManager::new();
    m.place([-2, 50, -2], [2, 50, 2], [0, 0, 0, 1000], false, ChunkType::Persistent, 13);
    let cam = fixed_camera();
    let a = m.target_voxel(&cam, 500, -700, true, false, false, 32);
    let b = m.target_voxel(&cam, 500, -700, true, false, false, 32);
    assert_eq!(a, b);
}

#[test]
fn targeting_misses_empty_air() {
    let m = ChunkManager::new();
    let cam = fixed_camera();
    let (_, found) = m.target_voxel(&cam, 0, 0, false, false, false, 64);
    assert!(!found);
}

#[test]
fn tab_cycles_the_tool_once() {
    let mut m = ChunkManager::new();
    let cam = fixed_camera();
    let mut sr = 1000;
    let mut input = quiet_input();
    input.is_tab = true;
    m.update(&input, &cam, &mut sr);
    assert_eq!(m.indicator_state, IndicatorState::Brush);
    // holding tab does not cycle again
    m.update(&input, &cam, &mut sr);
    assert_eq!(m.indicator_state, IndicatorState::Brush);
    // release and press again
    input.is_tab = false;
    m.update(&input, &cam, &mut sr);
    input.is_tab = true;
    m.update(&input, &cam, &mut sr);
    assert_eq!(m.indicator_state, IndicatorState::Place);
}

#[test]
fn sampling_ratio_is_clamped() {
    let mut m = ChunkManager::new();
    let cam = fixed_camera();
    let mut sr = 3950;
    let mut input = quiet_input();
    input.is_control = true;
    input.scroll = -1;
    m.update(&input, &cam, &mut sr);
    assert_eq!(sr, 4000);
    m.update(&input, &cam, &mut sr);
    assert_eq!(sr, 4000);
    input.scroll = 1;
    for _ in 0..40 {
        m.update(&input, &cam, &mut sr);
    }
    assert_eq!(sr, 1000);
}

#[test]
fn brush_radius_scrolls_within_bounds() {
    let mut m = ChunkManager::new();
    let cam = fixed_camera();
    let mut sr = 1000;
    let mut input = quiet_input();
    // the fresh brush radius sits at the upper clamp already
    input.scroll = 1;
    m.update(&input, &cam, &mut sr);
    assert_eq!(m.brush_state.radius, 64);
    input.scroll = -1;
    for _ in 0..200 {
        m.update(&input, &cam, &mut sr);
    }
    assert_eq!(m.brush_state.radius, 1);
    input.scroll = 1;
    m.update(&input, &cam, &mut sr);
    assert_eq!(m.brush_state.radius, 2);
}

#[test]
fn place_click_emits_a_command() {
    let mut m = ChunkManager::new();
    let cam = fixed_camera();
    let mut sr = 1000;
    // cycle to place mode
    let mut input = quiet_input();
    input.is_tab = true;
    m.update(&input, &cam, &mut sr);
    input.is_tab = false;
    m.update(&input, &cam, &mut sr);
    input.is_tab = true;
    m.update(&input, &cam, &mut sr);
    assert_eq!(m.indicator_state, IndicatorState::Place);
    // click: the frame emits a /place command
    input.is_tab = false;
    input.mouse_left = true;
    let out = m.update(&input, &cam, &mut sr);
    let cmd = out.command.expect("a click in place mode emits");
    assert!(cmd.as_str().starts_with("/place "));
    // the emitted command drives the parser to a real edit
    let d = voxel_sandbox::command::Descriptor { text: cmd };
    let outcome = d.parse_command(&mut m);
    assert!(outcome.log.as_str().starts_with("Model placed at "));
    assert!(m.chunk_list.iter().any(|c| c.current_type == ChunkType::Persistent));
}

#[test]
fn normal_mode_emits_nothing() {
    let mut m = ChunkManager::new();
    let cam = fixed_camera();
    let mut sr = 1000;
    let mut input = quiet_input();
    input.mouse_left = true;
    let out = m.update(&input, &cam, &mut sr);
    assert!(out.command.is_none());
}

#[test]
fn pulse_alpha_wraps() {
    let mut m = ChunkManager::new();
    let cam = fixed_camera();
    let mut sr = 1000;
    let mut input = quiet_input();
    input.dt_milli = 1000;
    let w0 = m.w;
    m.update(&input, &cam, &mut sr);
    assert_eq!(m.w, w0 - 4000);
    // far below the wrap point: the next frame resets to full
    m.update(&input, &cam, &mut sr);
    assert_eq!(m.w, 1000);
}

#[test]
fn controls_track_messages() {
    let mut c = Controls::new();
    c.update(Message::TextChanged("hi".to_string()));
    assert_eq!(c.text.as_str(), "hi");
    c.update(Message::CommandChanged("/get".to_string()));
    assert_eq!(c.command_buffer.as_str(), "/get");
    c.update(Message::Parse);
    assert!(c.parse_flag);
    c.update(Message::CommandParsed);
    assert!(!c.parse_flag);
    assert_eq!(c.command_buffer.as_str(), "");
    c.update(Message::FrameUpdate(60));
    assert_eq!(c.fps, 60);
    c.update(Message::UsrIndicator("BRUSH_MODE1 pix:4".to_string(), true));
    assert_eq!(c.indicator_text.as_str(), "BRUSH_MODE1 pix:4");
    assert!(c.indicator_overdose);
    c.update(Message::OnSubmit);
    assert_eq!(c.text.as_str(), "");
}

#[test]
fn log_lines_fade_and_expire() {
    let mut c = Controls::new();
    c.update(Message::ServerLog("hello".to_string()));
    assert_eq!(c.text_column.len(), 1);
    assert_eq!(c.text_column[0].timer, 10000);
    assert_eq!(c.text_column[0].alpha, 700);
    // run the clock down: the line eventually fades out entirely
    for _ in 0..1200 {
        c.update(Message::Update);
    }
    assert_eq!(c.text_column.len(), 0);
}

#[test]
fn chat_lines_take_a_hex_color_prefix() {
    let mut c = Controls::new();
    c.update(Message::CommandChanged("ff8000:hello".to_string()));
    c.update(Message::ChatMessage);
    assert_eq!(c.text_column.len(), 1);
    let line = &c.text_column[0];
    assert_eq!(line.text.as_str(), "hello");
    assert_eq!(line.id.as_str(), "ff8000:");
    // (byte + 256) * 1000 / 512 per channel
    assert_eq!(line.id_color, [998, 750, 500]);
    // a prefix that is not hex still shows as text
    c.update(Message::CommandChanged("not hex:words".to_string()));
    c.update(Message::ChatMessage);
    assert_eq!(c.text_column.len(), 2);
    assert_eq!(c.text_column[1].text.as_str(), "words");
    assert_eq!(c.text_column[1].id_color, [0, 0, 0]);
    // no colon at all: the whole line is the text
    c.update(Message::CommandChanged("plain".to_string()));
    c.update(Message::ChatMessage);
    assert_eq!(c.text_column[2].text.as_str(), "plain");
}

#[test]
fn new_text_column_defaults() {
    let t = TextColumn::new("x".to_string());
    assert_eq!(t.timer, 10000);
    assert_eq!(t.alpha, 700);
    assert_eq!(t.id.as_str(), "");
    assert_eq!(t.id_color, [0, 0, 0]);
}
