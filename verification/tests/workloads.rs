use terminfo::Database;
use vtebench::context::Context;
use vtebench::pattern::alt_screen_random_write;
use vtebench::pattern::encode_unit;
use vtebench::pattern::scrolling;
use vtebench::pattern::scrolling_in_region;
use vtebench::pattern::synthesize;
use vtebench::pattern::unicode_random_write;
use vtebench::pattern::Geometry;
use vtebench::pattern::Pattern;
use vtebench::result::Capability;
use vtebench::result::Error;

const SMCUP: &[u8] = b"\x1b[?1049h";
const RMCUP: &[u8] = b"\x1b[?1049l";
const SGR0: &[u8] = b"\x1b[m";

fn xterm_with(cup: Option<&[u8]>) -> Database {
    let mut builder = Database::new();
    builder.name("test");
    builder.description("terminal for tests");
    builder.raw("enter_ca_mode", SMCUP.to_vec());
    builder.raw("exit_ca_mode", RMCUP.to_vec());
    if let Some(cup) = cup {
        builder.raw("cursor_address", cup.to_vec());
    }
    builder.raw("set_a_foreground", b"\x1b[3%p1%dm".to_vec());
    builder.raw("exit_attribute_mode", SGR0.to_vec());
    builder.raw("change_scroll_region", b"\x1b[%i%p1%d;%p2%dr".to_vec());
    builder.build().unwrap()
}

fn xterm() -> Database {
    xterm_with(Some(b"\x1b[%i%p1%d;%p2%dH"))
}

fn bare() -> Database {
    let mut builder = Database::new();
    builder.name("bare");
    builder.description("terminal without capabilities");
    builder.build().unwrap()
}

/// Splits off every `ESC [ line ; col H` and returns the places, counted from zero.
fn cursor_places(out: &[u8]) -> Vec<(u16, u16)> {
    let mut places = Vec::new();
    let mut i = 0;
    while i + 1 < out.len() {
        if out[i] == 0x1b && out[i + 1] == b'[' {
            let mut j = i + 2;
            let mut numbers = vec![0u32];
            let mut plain = true;
            while j < out.len() && (out[j].is_ascii_digit() || out[j] == b';') {
                if out[j] == b';' {
                    numbers.push(0);
                } else {
                    let last = numbers.len() - 1;
                    numbers[last] = numbers[last] * 10 + (out[j] - b'0') as u32;
                }
                j += 1;
            }
            if j == i + 2 {
                plain = false;
            }
            if plain && j < out.len() && out[j] == b'H' && numbers.len() == 2 {
                places.push(((numbers[0] - 1) as u16, (numbers[1] - 1) as u16));
                i = j + 1;
                continue;
            }
        }
        i += 1;
    }
    places
}

#[test]
fn capabilities_expand_with_their_parameters() {
    let mut ctx = Context::new(xterm());
    assert_eq!(ctx.smcup().unwrap(), SMCUP.len());
    assert_eq!(ctx.cup(2, 4).unwrap(), 6);
    assert_eq!(ctx.setaf(5).unwrap(), 5);
    assert_eq!(ctx.csr(1, 22).unwrap(), 7);
    assert_eq!(ctx.sgr0().unwrap(), SGR0.len());
    assert_eq!(ctx.rmcup().unwrap(), RMCUP.len());
    let expected = b"\x1b[?1049h\x1b[3;5H\x1b[35m\x1b[2;23r\x1b[m\x1b[?1049l";
    assert_eq!(ctx.output(), expected);
    assert_eq!(ctx.len(), expected.len());
    assert_eq!(ctx.into_output(), expected.to_vec());
}

#[test]
fn capability_names_are_the_long_terminfo_names() {
    assert_eq!(Capability::EnterCaMode.name(), "enter_ca_mode");
    assert_eq!(Capability::ExitCaMode.name(), "exit_ca_mode");
    assert_eq!(Capability::CursorAddress.name(), "cursor_address");
    assert_eq!(Capability::SetAForeground.name(), "set_a_foreground");
    assert_eq!(Capability::ExitAttributeMode.name(), "exit_attribute_mode");
    assert_eq!(Capability::ChangeScrollRegion.name(), "change_scroll_region");
}

#[test]
fn missing_capability_is_reported_and_emits_nothing() {
    let mut ctx = Context::new(bare());
    assert!(matches!(ctx.smcup(), Err(Error::Missing(Capability::EnterCaMode))));
    assert!(matches!(ctx.rmcup(), Err(Error::Missing(Capability::ExitCaMode))));
    assert!(matches!(ctx.cup(0, 0), Err(Error::Missing(Capability::CursorAddress))));
    assert!(matches!(ctx.setaf(1), Err(Error::Missing(Capability::SetAForeground))));
    assert!(matches!(ctx.sgr0(), Err(Error::Missing(Capability::ExitAttributeMode))));
    assert!(matches!(ctx.csr(0, 1), Err(Error::Missing(Capability::ChangeScrollRegion))));
    assert_eq!(ctx.len(), 0);
}

#[test]
fn number_under_a_string_name_counts_as_missing() {
    let mut builder = Database::new();
    builder.name("odd");
    builder.description("number where a string belongs");
    builder.raw("cursor_address", 7);
    let mut ctx = Context::new(builder.build().unwrap());
    assert!(matches!(ctx.cup(1, 1), Err(Error::Missing(Capability::CursorAddress))));
}

#[test]
fn failed_expansion_is_reported_and_emits_nothing() {
    let mut ctx = Context::new(xterm_with(Some(b"\x1b[%d;%dH")));
    ctx.write(b"kept");
    match ctx.cup(1, 1) {
        Err(Error::Terminfo(message)) => assert!(!message.is_empty()),
        other => panic!("unexpected {:?}", other),
    }
    assert_eq!(ctx.output(), b"kept");
}

#[test]
fn put_appends_or_passes_the_failure_on() {
    let mut ctx = Context::new(bare());
    let place = vec![1, 2];
    assert_eq!(ctx.put(Capability::CursorAddress, &place, Ok(b"abc".to_vec())).unwrap(), 3);
    assert_eq!(ctx.put(Capability::ExitCaMode, &Vec::new(), Ok(Vec::new())).unwrap(), 0);
    match ctx.put(Capability::CursorAddress, &place, Err("no".to_string())) {
        Err(Error::Terminfo(message)) => assert_eq!(message, "no"),
        other => panic!("unexpected {:?}", other),
    }
    assert_eq!(ctx.output(), b"abc");
}

#[test]
fn random_ascii_is_printable() {
    let mut ctx = Context::new(bare());
    ctx.write(b"\x01");
    assert_eq!(ctx.write_ascii(4000).unwrap(), 4000);
    assert_eq!(ctx.write_ascii(0).unwrap(), 0);
    let out = ctx.output();
    assert_eq!(out.len(), 4001);
    assert_eq!(out[0], 1);
    assert!(out[1..].iter().all(|b| (32..127).contains(b)));
    assert!(out[1..].iter().any(|b| *b != out[1]));
}

#[test]
fn drawn_numbers_stay_in_range() {
    let mut ctx = Context::new(bare());
    for _ in 0..2000 {
        let n = ctx.gen_range(3, 6);
        assert!((3..6).contains(&n));
    }
    assert_eq!(ctx.gen_range(9, 10), 9);
    assert_eq!(ctx.len(), 0);
}

#[test]
fn scrolling_emits_whole_lines_up_to_the_target() {
    let geometry = Geometry { width: 4, height: 3 };
    let mut ctx = Context::new(xterm());
    assert_eq!(scrolling(&mut ctx, geometry, 5, false).unwrap(), 6 + SGR0.len());
    assert_eq!(ctx.output(), b"y\ny\ny\n\x1b[m");

    let mut ctx = Context::new(xterm());
    assert_eq!(scrolling(&mut ctx, geometry, 6, true).unwrap(), 10 + SGR0.len());
    assert_eq!(ctx.output(), b"yyyy\nyyyy\n\x1b[m");

    let mut ctx = Context::new(xterm());
    assert_eq!(scrolling(&mut ctx, geometry, 10, true).unwrap(), 10 + SGR0.len());
    assert_eq!(ctx.output(), b"yyyy\nyyyy\n\x1b[m");

    let mut ctx = Context::new(xterm());
    assert_eq!(scrolling(&mut ctx, geometry, 0, false).unwrap(), SGR0.len());
    assert_eq!(ctx.output(), SGR0);
}

#[test]
fn scrolling_without_reset_keeps_its_lines() {
    let mut ctx = Context::new(bare());
    let geometry = Geometry { width: 80, height: 24 };
    assert!(matches!(
        scrolling(&mut ctx, geometry, 3, false),
        Err(Error::Missing(Capability::ExitAttributeMode))
    ));
    assert_eq!(ctx.output(), b"y\ny\n");
}

#[test]
fn random_write_stays_on_the_screen() {
    for (width, height) in [(2u16, 1u16), (3, 2), (10, 4), (80, 24), (200, 60)] {
        for colorize in [false, true] {
            let geometry = Geometry { width, height };
            let mut ctx = Context::new(xterm());
            let written = alt_screen_random_write(&mut ctx, geometry, 20_000, colorize).unwrap();
            let out = ctx.output();
            assert_eq!(written, out.len());
            assert!(written >= 20_000);
            assert!(out.starts_with(SMCUP));
            assert!(out.ends_with(b"\x1b[m\x1b[?1049l"));
            let places = cursor_places(out);
            assert!(!places.is_empty());
            for (line, col) in places {
                assert!(line < height, "line {} on {} lines", line, height);
                assert!(col < width - 1, "column {} on {} columns", col, width);
            }
        }
    }
}

#[test]
fn random_write_overshoots_by_less_than_one_pass() {
    let geometry = Geometry { width: 20, height: 5 };
    let mut ctx = Context::new(xterm());
    let written = alt_screen_random_write(&mut ctx, geometry, 1000, true).unwrap();
    // one pass: cursor address (at most 7 bytes), colour (5), run (at most 19), then the trailer
    assert!(written < 1000 + 7 + 5 + 19 + SGR0.len() + RMCUP.len());
}

#[test]
fn random_write_refuses_a_terminal_too_small() {
    for geometry in [
        Geometry { width: 1, height: 10 },
        Geometry { width: 0, height: 10 },
        Geometry { width: 10, height: 0 },
    ] {
        let mut ctx = Context::new(xterm());
        assert!(matches!(alt_screen_random_write(&mut ctx, geometry, 10, false), Err(Error::Geometry)));
        assert!(matches!(unicode_random_write(&mut ctx, geometry, 10, false), Err(Error::Geometry)));
        assert_eq!(ctx.len(), 0);
    }
}

#[test]
fn random_write_reports_what_the_terminal_lacks() {
    let geometry = Geometry { width: 10, height: 10 };
    let mut ctx = Context::new(bare());
    assert!(matches!(
        alt_screen_random_write(&mut ctx, geometry, 10, false),
        Err(Error::Missing(Capability::EnterCaMode))
    ));
    let mut ctx = Context::new(xterm_with(None));
    assert!(matches!(
        alt_screen_random_write(&mut ctx, geometry, 10, false),
        Err(Error::Missing(Capability::CursorAddress))
    ));
    assert_eq!(ctx.output(), SMCUP);
}

#[test]
fn random_write_gives_up_when_a_pass_emits_nothing() {
    let geometry = Geometry { width: 2, height: 1 };
    let mut ctx = Context::new(xterm_with(Some(b"")));
    assert!(matches!(
        alt_screen_random_write(&mut ctx, geometry, 1_000_000, false),
        Err(Error::Stalled)
    ));
}

#[test]
fn unicode_write_emits_text_and_stays_on_the_screen() {
    let geometry = Geometry { width: 40, height: 12 };
    for colorize in [false, true] {
        let mut ctx = Context::new(xterm());
        let written = unicode_random_write(&mut ctx, geometry, 30_000, colorize).unwrap();
        let out = ctx.output();
        assert_eq!(written, out.len());
        assert!(written >= 30_000);
        assert!(!out.starts_with(SMCUP));
        assert!(out.ends_with(SGR0));
        assert!(std::str::from_utf8(out).is_ok());
        for (line, col) in cursor_places(out) {
            assert!(line < 12);
            assert!(col < 39);
        }
    }
}

#[test]
fn code_units_are_encoded_leniently() {
    assert_eq!(encode_unit(0x41), b"A".to_vec());
    assert_eq!(encode_unit(0xe9), vec![0xc3, 0xa9]);
    assert_eq!(encode_unit(0x20ac), vec![0xe2, 0x82, 0xac]);
    assert_eq!(encode_unit(0xd800), vec![0xef, 0xbf, 0xbd]);
    assert_eq!(encode_unit(0xdfff), vec![0xef, 0xbf, 0xbd]);
    for unit in 0..=u16::MAX {
        assert_eq!(encode_unit(unit), String::from_utf16_lossy(&[unit]).into_bytes());
    }
}

#[test]
fn region_scrolling_marks_the_margins_and_restores_the_region() {
    let geometry = Geometry { width: 10, height: 6 };
    let mut ctx = Context::new(xterm());
    let written = scrolling_in_region(&mut ctx, geometry, 60, false, 1, 2).unwrap();
    let mut expected = Vec::new();
    expected.extend_from_slice(b"\x1b[2;4r");
    expected.extend_from_slice(b"\x1b[1;1Hmargin");
    expected.extend_from_slice(b"\x1b[5;1Hmargin");
    expected.extend_from_slice(b"\x1b[6;1Hmargin");
    expected.extend_from_slice(b"\x1b[2;1H");
    while expected.len() < 60 {
        expected.extend_from_slice(b"y\n");
    }
    expected.extend_from_slice(b"\x1b[1;6r");
    expected.extend_from_slice(SGR0);
    assert_eq!(ctx.output(), &expected[..]);
    assert_eq!(written, expected.len());
}

#[test]
fn region_scrolling_refuses_a_region_off_the_terminal() {
    let geometry = Geometry { width: 10, height: 6 };
    for (top, bottom) in [(0u16, 6u16), (5, 0), (3, 2), (2, 3), (6, 0), (0, 5), (60000, 60000)] {
        let mut ctx = Context::new(xterm());
        assert!(
            matches!(scrolling_in_region(&mut ctx, geometry, 10, false, top, bottom), Err(Error::Region)),
            "{} {}",
            top,
            bottom
        );
        assert_eq!(ctx.len(), 0);
    }
    let mut ctx = Context::new(xterm());
    assert!(scrolling_in_region(&mut ctx, geometry, 10, true, 0, 0).is_ok());
    let mut ctx = Context::new(xterm());
    assert!(scrolling_in_region(&mut ctx, geometry, 10, true, 4, 0).is_ok());
    let mut ctx = Context::new(xterm());
    assert!(matches!(
        scrolling_in_region(&mut ctx, Geometry { width: 0, height: 6 }, 10, false, 0, 0),
        Err(Error::Geometry)
    ));
}

#[test]
fn synthesize_dispatches_on_the_pattern() {
    let geometry = Geometry { width: 8, height: 4 };
    let mut ctx = Context::new(xterm());
    synthesize(&mut ctx, geometry, 4, Pattern::Scrolling { fill_lines: false }).unwrap();
    assert_eq!(ctx.output(), b"y\ny\n\x1b[m");

    let mut ctx = Context::new(xterm());
    let n = synthesize(&mut ctx, geometry, 500, Pattern::AltScreenRandomWrite { colorize: true }).unwrap();
    assert!(n >= 500 && ctx.output().starts_with(SMCUP));

    let mut ctx = Context::new(xterm());
    let n = synthesize(&mut ctx, geometry, 500, Pattern::UnicodeRandomWrite { colorize: false }).unwrap();
    assert!(n >= 500 && ctx.output().starts_with(b"\x1b["));

    let mut ctx = Context::new(xterm());
    let pattern = Pattern::ScrollingInRegion { fill_lines: true, lines_from_top: 1, lines_from_bottom: 1 };
    let n = synthesize(&mut ctx, geometry, 100, pattern).unwrap();
    assert!(n >= 100 && ctx.output().starts_with(b"\x1b[2;3r"));

    let mut ctx = Context::new(xterm());
    let pattern = Pattern::ScrollingInRegion { fill_lines: true, lines_from_top: 3, lines_from_bottom: 1 };
    assert!(matches!(synthesize(&mut ctx, geometry, 100, pattern), Err(Error::Region)));
}

#[test]
fn region_scrolling_breaks_off_where_the_terminal_fails() {
    let geometry = Geometry { width: 10, height: 6 };
    let mut ctx = Context::new(bare());
    assert!(matches!(
        scrolling_in_region(&mut ctx, geometry, 50, false, 1, 1),
        Err(Error::Missing(Capability::ChangeScrollRegion))
    ));
    assert_eq!(ctx.len(), 0);

    let mut ctx = Context::new(xterm_with(None));
    assert!(matches!(
        scrolling_in_region(&mut ctx, geometry, 50, false, 1, 1),
        Err(Error::Missing(Capability::CursorAddress))
    ));
    assert_eq!(ctx.output(), b"\x1b[2;5r");

    // without a line above the region the first cursor movement is the one below it
    let mut ctx = Context::new(xterm_with(None));
    assert!(scrolling_in_region(&mut ctx, geometry, 50, false, 0, 0).is_err());
    assert_eq!(ctx.output(), b"\x1b[1;6r");
}
