use voxel_sandbox::chunk::ChunkType;
use voxel_sandbox::command::{format_command, CommandOutcome, Descriptor, TextureTarget};
use voxel_sandbox::geom::pack_pos;
use voxel_sandbox::manager::ChunkManager;
use voxel_sandbox::numtext::{fmt_i32, fmt_milli, parse_i32, parse_milli, tokenize};
use voxel_sandbox::shell::{decode_hex, encode_hex, HexError};

fn parse(text: &str, m: &mut ChunkManager) -> CommandOutcome {
    let d = Descriptor { text: text.to_string() };
    d.parse_command(m)
}

#[test]
fn integers_format_exactly() {
    assert_eq!(fmt_i32(0).as_str(), "0");
    assert_eq!(fmt_i32(42).as_str(), "42");
    assert_eq!(fmt_i32(-5).as_str(), "-5");
    assert_eq!(fmt_i32(2147483647).as_str(), "2147483647");
    assert_eq!(fmt_i32(-2147483647).as_str(), "-2147483647");
}

#[test]
fn integers_parse_exactly() {
    assert_eq!(parse_i32("0"), Some(0));
    assert_eq!(parse_i32("-5"), Some(-5));
    assert_eq!(parse_i32("+7"), Some(7));
    assert_eq!(parse_i32("2147483647"), Some(2147483647));
    assert_eq!(parse_i32("-2147483648"), Some(-2147483648));
    assert_eq!(parse_i32("2147483648"), None);
    assert_eq!(parse_i32(""), None);
    assert_eq!(parse_i32("-"), None);
    assert_eq!(parse_i32("12a"), None);
    assert_eq!(parse_i32("1.5"), None);
}

#[test]
fn milli_values_format_exactly() {
    assert_eq!(fmt_milli(0).as_str(), "0");
    assert_eq!(fmt_milli(1000).as_str(), "1");
    assert_eq!(fmt_milli(500).as_str(), "0.5");
    assert_eq!(fmt_milli(-500).as_str(), "-0.5");
    assert_eq!(fmt_milli(123).as_str(), "0.123");
    assert_eq!(fmt_milli(120).as_str(), "0.12");
    assert_eq!(fmt_milli(1500).as_str(), "1.5");
    assert_eq!(fmt_milli(-12345).as_str(), "-12.345");
}

#[test]
fn milli_values_parse_exactly() {
    assert_eq!(parse_milli("0"), Some(0));
    assert_eq!(parse_milli("1"), Some(1000));
    assert_eq!(parse_milli("0.5"), Some(500));
    assert_eq!(parse_milli("-0.5"), Some(-500));
    assert_eq!(parse_milli("0.123"), Some(123));
    assert_eq!(parse_milli("1.5"), Some(1500));
    assert_eq!(parse_milli("-12.345"), Some(-12345));
    assert_eq!(parse_milli(""), None);
    assert_eq!(parse_milli("."), None);
    assert_eq!(parse_milli(".5"), None);
    assert_eq!(parse_milli("5."), None);
    assert_eq!(parse_milli("1.2345"), None);
    assert_eq!(parse_milli("x"), None);
}

#[test]
fn milli_round_trips() {
    for &m in &[0, 1, -1, 500, 999, 1000, 1001, -250, 123456, -999999] {
        assert_eq!(parse_milli(fmt_milli(m).as_str()), Some(m));
    }
    for &n in &[0, 1, -1, 64, -128, 2147483647, -2147483647] {
        assert_eq!(parse_i32(fmt_i32(n).as_str()), Some(n));
    }
}

#[test]
fn tokenizing_splits_on_every_space() {
    let toks = tokenize("/place 1 2");
    assert_eq!(toks.len(), 3);
    assert_eq!(toks[0].as_str(), "/place");
    assert_eq!(toks[1].as_str(), "1");
    assert_eq!(toks[2].as_str(), "2");
    let toks = tokenize("a  b ");
    assert_eq!(toks.len(), 4);
    assert_eq!(toks[1].as_str(), "");
    assert_eq!(toks[3].as_str(), "");
    let toks = tokenize("");
    assert_eq!(toks.len(), 1);
    assert_eq!(toks[0].as_str(), "");
}

#[test]
fn emitted_commands_parse_back() {
    // the command round trip on concrete values
    let cmd = format_command("/place", [-5, -5, -5], [5, 5, 5], [250, 500, 750, 1000], 0);
    assert_eq!(cmd.as_str(), "/place -5 -5 -5 5 5 5 0.25 0.5 0.75 1 0 ");
    let mut m = ChunkManager::new();
    let out = parse(cmd.as_str(), &mut m);
    assert!(!out.chat);
    assert!(out.texture.is_none());
    assert!(out.log.as_str().starts_with("Model placed at -5 -5 -5 "));
    // the placed world matches the region and model of the command
    assert_eq!(m.chunk_list.len(), 1);
    assert_eq!(m.chunk_list[0].voxel_data.len(), 11 * 11 * 11 - 9 * 9 * 9);
}

#[test]
fn delete_command_round_trips() {
    let mut m = ChunkManager::new();
    parse("/place -5 -5 -5 5 5 5 0.2 0.3 0.4 1 0", &mut m);
    assert!(m.chunk_list[0].voxel_data.len() > 0);
    let out = parse("/delete -5 -5 -5 5 5 5 0.2 0.3 0.4 1 0", &mut m);
    assert!(out.log.as_str().starts_with("Model deleted at "));
    assert_eq!(m.chunk_list[0].voxel_data.len(), 0);
    for x in -5..=5 {
        assert!(m.chunk_list[0].position_hash.get(&pack_pos([x, 5, 5])).is_none());
    }
}

#[test]
fn draw_command_paints() {
    let mut m = ChunkManager::new();
    parse("/place -3 0 -3 3 0 3 0.2 0.3 0.4 1 13", &mut m);
    let out = parse("/draw -3 0 -3 3 0 3 0.9 0.8 0.7 0.6 0", &mut m);
    assert!(out.log.as_str().starts_with("Model drawn at "));
    for v in m.chunk_list[0].voxel_data.iter() {
        assert_eq!(v.color, [900, 800, 700, 600]);
    }
}

#[test]
fn short_commands_are_refused() {
    let mut m = ChunkManager::new();
    let out = parse("/place 1 2 3", &mut m);
    assert_eq!(out.log.as_str(), "Insufficient args");
    assert_eq!(m.chunk_list.len(), 0);
}

#[test]
fn bad_numbers_are_refused() {
    let mut m = ChunkManager::new();
    let out = parse("/place a b c 5 5 5 0.2 0.3 0.4 1 0", &mut m);
    assert_eq!(out.log.as_str(), "MalformedArgument");
    assert_eq!(m.chunk_list.len(), 0);
    // a coordinate beyond the world range is refused too
    let out = parse("/place 999999999 0 0 999999999 0 0 0.2 0.3 0.4 1 0", &mut m);
    assert_eq!(out.log.as_str(), "MalformedArgument");
    assert_eq!(m.chunk_list.len(), 0);
}

#[test]
fn unknown_verbs_are_reported() {
    let mut m = ChunkManager::new();
    let out = parse("/fly 1 2 3", &mut m);
    assert_eq!(out.log.as_str(), "Fail to parse command");
    assert!(!out.chat);
}

#[test]
fn chat_lines_pass_through() {
    let mut m = ChunkManager::new();
    let out = parse("hello world", &mut m);
    assert!(out.chat);
    assert!(out.texture.is_none());
    let out = parse("", &mut m);
    assert!(out.chat);
}

#[test]
fn debug_verbs_select_targets() {
    let mut m = ChunkManager::new();
    assert_eq!(parse("/diffuse", &mut m).texture, Some(TextureTarget::Diffuse));
    assert_eq!(parse("/normal", &mut m).texture, Some(TextureTarget::Normal));
    assert_eq!(parse("/depth", &mut m).texture, Some(TextureTarget::Depth));
    assert_eq!(parse("/output", &mut m).texture, Some(TextureTarget::Output));
    let out = parse("/get", &mut m);
    assert_eq!(out.log.as_str(), "");
    assert!(out.texture.is_none());
}

#[test]
fn hex_round_trips() {
    let bytes = vec![0u8, 1, 15, 16, 127, 128, 255];
    let text = encode_hex(&bytes);
    assert_eq!(text.as_str(), "00010f107f80ff");
    assert_eq!(decode_hex(text.as_str()), Ok(bytes));
}

#[test]
fn hex_rejects_bad_input() {
    assert_eq!(decode_hex("abc"), Err(HexError::OddLength));
    assert_eq!(decode_hex("zz"), Err(HexError::InvalidDigit));
    assert_eq!(decode_hex(""), Ok(vec![]));
    assert_eq!(decode_hex("FF00"), Ok(vec![255, 0]));
}
