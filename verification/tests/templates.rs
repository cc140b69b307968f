use terminfo::Database;
use vtebench::context::Context;
use vtebench::result::Capability;
use vtebench::result::Error;
use vtebench::template::is_tame;

fn with_cup(cup: &[u8]) -> Context {
    let mut builder = Database::new();
    builder.name("test");
    builder.description("terminal for tests");
    builder.raw("cursor_address", cup.to_vec());
    Context::new(builder.build().unwrap())
}

fn with_setaf(setaf: &[u8]) -> Context {
    let mut builder = Database::new();
    builder.name("test");
    builder.description("terminal for tests");
    builder.raw("set_a_foreground", setaf.to_vec());
    Context::new(builder.build().unwrap())
}

fn tame(template: &[u8]) -> bool {
    is_tame(&template.to_vec())
}

#[test]
fn text_and_the_common_escapes_are_tame() {
    assert!(tame(b""));
    assert!(tame(b"plain text"));
    assert!(tame(b"\x1b[%i%p1%d;%p2%dH"));
    assert!(tame(b"\x1b[%i%p1%d;%p2%dr"));
    assert!(tame(b"\x1b[?1049h"));
    assert!(tame(b"100%%"));
    assert!(tame(b"%p1%p9%Pa%PZ%ga%gZ%'x'%'%'%{0}%{999999}"));
    assert!(tame(b"%+%-%&%|%^%A%O%!%=%>%<%i%?%t%e%;%d%o%x%X%s%c"));
    assert!(tame(b"\x1b[%?%p1%{8}%<%t3%p1%d%e%p1%{16}%<%t9%p1%{8}%-%d%e38;5;%p1%d%;m"));
    assert!(tame(b"\x1b=%p1%' '%+%c%p2%' '%+%c"));
}

#[test]
fn a_percent_that_begins_no_escape_is_not_tame() {
    for template in [
        &b"%"[..],
        b"abc%",
        b"%z",
        b"%.H",
        b"%u",
        b"%l",
        b"%p",
        b"%p0",
        b"%px",
        b"%P",
        b"%P#",
        b"%g",
        b"%g_",
        b"%'",
        b"%'a",
        b"%'ab'",
        b"%{",
        b"%{}",
        b"%{12",
        b"%{12x}",
        b"%{1234567}",
        b"ok%p1%d%zok",
    ] {
        assert!(!tame(template), "{:?}", String::from_utf8_lossy(template));
    }
}

#[test]
fn products_quotients_and_complements_are_not_tame() {
    assert!(!tame(b"%p1%p2%*%d"));
    assert!(!tame(b"%p1%p2%/%d"));
    assert!(!tame(b"%p1%p2%m%d"));
    assert!(!tame(b"%p1%~%d"));
    assert!(!tame(b"%{2147483647}%~%{0}%~%/"));
}

#[test]
fn widths_flags_and_precisions_are_not_tame() {
    for template in [&b"%p1%3d"[..], b"%p1%2x", b"%p1%02d", b"%p1% d", b"%p1%:-3d", b"%p1%.2d", b"%p1%#x"] {
        assert!(!tame(template), "{:?}", String::from_utf8_lossy(template));
    }
}

#[test]
fn ten_sums_are_tame_and_eleven_are_not() {
    let mut template = b"%p1".to_vec();
    for _ in 0..5 {
        template.extend_from_slice(b"%{999999}%+%{999999}%-");
    }
    assert!(is_tame(&template));
    let mut ctx = with_cup(&[&template[..], b"%d"].concat());
    assert_eq!(ctx.cup(65535, 0).unwrap(), 5);
    assert_eq!(ctx.output(), b"65535");

    template.extend_from_slice(b"%{1}%+");
    assert!(!is_tame(&template));
}

#[test]
fn a_string_that_is_not_tame_is_not_expanded() {
    for cup in [&b"%z"[..], b"\x1b[%.H", b"%p1%p2%*%d", b"%{2147483647}%~%{0}%~%/", b"%p1%3d"] {
        let mut ctx = with_cup(cup);
        ctx.write(b"kept");
        match ctx.cup(65535, 65535) {
            Err(Error::Terminfo(message)) => assert_eq!(message, "The capability string is not tame."),
            other => panic!("unexpected {:?}", other),
        }
        assert_eq!(ctx.output(), b"kept");
    }
}

#[test]
fn a_tame_string_that_fails_is_reported_in_the_words_of_terminfo() {
    let mut ctx = with_cup(b"%d");
    match ctx.cup(1, 1) {
        Err(Error::Terminfo(message)) => assert_ne!(message, "The capability string is not tame."),
        other => panic!("unexpected {:?}", other),
    }
    let mut ctx = with_cup(b"%p1%s");
    assert!(matches!(ctx.cup(1, 1), Err(Error::Terminfo(_))));
    let mut ctx = with_cup(b"%t");
    assert!(matches!(ctx.cup(1, 1), Err(Error::Terminfo(_))));
    assert!(matches!(ctx.setaf(1), Err(Error::Missing(Capability::SetAForeground))));
}

#[test]
fn conditionals_and_sums_expand_as_terminfo_has_them() {
    let setaf = b"\x1b[%?%p1%{8}%<%t3%p1%d%e%p1%{16}%<%t9%p1%{8}%-%d%e38;5;%p1%d%;m";
    let mut ctx = with_setaf(setaf);
    assert_eq!(ctx.setaf(1).unwrap(), 5);
    assert_eq!(ctx.setaf(9).unwrap(), 5);
    assert_eq!(ctx.setaf(200).unwrap(), 11);
    assert_eq!(ctx.output(), b"\x1b[31m\x1b[91m\x1b[38;5;200m");

    let mut ctx = with_cup(b"\x1b=%p1%' '%+%c%p2%' '%+%c");
    assert_eq!(ctx.cup(1, 2).unwrap(), 4);
    assert_eq!(ctx.output(), b"\x1b=!\"");
}
