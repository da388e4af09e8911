use handheld::shell::{kernel_commands, KernelCommand, LineEditor};
use handheld::shell::{
    comma_delimited, eval, handle_command, parse_u32_radix, print_help, Command, Context, Dispatch, Evaluation,
    FlagValue,
};

#[derive(Clone, Copy, Debug, PartialEq)]
enum Act {
    Run,
    Panic,
}

fn table() -> Vec<Command<'static, Act>> {
    vec![
        Command::new("run").with_help("run the embedded WASM game module").with_fn(Act::Run),
        Command::new("panic")
            .with_usage("<MESSAGE>")
            .with_help("cause a kernel panic with the given message. use with caution.")
            .with_fn(Act::Panic),
    ]
}

fn failed_message(e: Evaluation<'_, Act>) -> String {
    match e {
        Evaluation::Failed(err) => err.message(),
        _ => panic!("expected an error"),
    }
}

#[test]
fn help_lists_commands() {
    let cmds = table();
    match eval("help", &cmds) {
        Evaluation::Help(lines) => assert_eq!(
            lines,
            vec![
                "available commands:".to_string(),
                "  run --- run the embedded WASM game module".to_string(),
                "  panic <MESSAGE> --- cause a kernel panic with the given message. use with caution.".to_string(),
                "  help --- prints this help message".to_string(),
                String::new(),
            ]
        ),
        _ => panic!("expected help"),
    }
}

#[test]
fn print_help_with_parent() {
    let cmds = table();
    let lines = print_help("mem", &cmds[..1]);
    assert_eq!(
        lines,
        vec!["  mem run --- run the embedded WASM game module".to_string(), "  mem help --- prints this help message".to_string()]
    );
    assert_eq!(cmds[1].describe(), "panic <MESSAGE> --- cause a kernel panic with the given message. use with caution.");
}

#[test]
fn commands_are_dispatched_with_the_rest_of_the_line() {
    let cmds = table();
    match eval("run", &cmds) {
        Evaluation::Invoke(a, ctx) => {
            assert_eq!(a, Act::Run);
            assert_eq!(ctx.command(), "");
        },
        _ => panic!("expected run"),
    }
    match eval("  panic   boom now ", &cmds) {
        Evaluation::Invoke(a, ctx) => {
            assert_eq!(a, Act::Panic);
            assert_eq!(ctx.command(), "boom now");
        },
        _ => panic!("expected panic"),
    }
    // names match as prefixes
    match eval("running", &cmds) {
        Evaluation::Invoke(a, ctx) => {
            assert_eq!(a, Act::Run);
            assert_eq!(ctx.command(), "ning");
        },
        _ => panic!("expected run"),
    }
}

#[test]
fn command_help_prints_its_usage_line() {
    let cmds = table();
    match eval("panic help", &cmds) {
        Evaluation::Usage(n) => assert_eq!(n, "panic"),
        _ => panic!("expected usage"),
    }
    match eval("run   help", &cmds) {
        Evaluation::Usage(n) => assert_eq!(n, "run  "),
        _ => panic!("expected usage"),
    }
    match eval("run\thelp", &cmds) {
        Evaluation::Usage(n) => assert_eq!(n, "<???BUG???>"),
        _ => panic!("expected usage"),
    }
}

#[test]
fn unknown_command_lists_names() {
    let cmds = table();
    assert_eq!(failed_message(eval("foo", &cmds)), "unknown command \"foo\", expected one of: [run, panic, help]");
    assert_eq!(failed_message(eval("  help", &cmds)), "unknown command \"  help\", expected one of: [run, panic, help]");
    let none: Vec<Command<'static, Act>> = Vec::new();
    assert_eq!(failed_message(eval("x", &none)), "unknown command \"x\", expected one of: [help]");
}

#[test]
fn command_without_function_fails() {
    let cmds: Vec<Command<'static, Act>> = vec![Command::new("nofn")];
    assert_eq!(failed_message(eval("nofn", &cmds)), "could not execute \"nofn\": command failed");
    match handle_command(Context::new("nofn help"), &cmds) {
        Ok(Dispatch::Usage(n)) => assert_eq!(n, "nofn"),
        _ => panic!("expected usage"),
    }
}

#[test]
fn command_run_checks_for_help() {
    let cmds = table();
    match cmds[0].run(Context::new("x")) {
        Dispatch::Invoke(a, ctx) => {
            assert_eq!(a, Act::Run);
            assert_eq!(ctx.command(), "x");
        },
        _ => panic!("expected invoke"),
    }
}

#[test]
fn numbers_in_hex_or_decimal() {
    let mut ctx = Context::new("0x1f 12 rest");
    assert_eq!(ctx.parse_optional_u32_hex_or_dec("addr").unwrap(), Some(31));
    assert_eq!(ctx.parse_u32_hex_or_dec("len").unwrap(), 12);
    assert_eq!(ctx.command(), "rest");
    let mut ctx = Context::new("   ");
    assert_eq!(ctx.parse_optional_u32_hex_or_dec("addr").unwrap(), None);
    let mut ctx = Context::new("+7");
    assert_eq!(ctx.parse_optional_u32_hex_or_dec("addr").unwrap(), Some(7));
    let mut ctx = Context::new("0xFFFFFFFF");
    assert_eq!(ctx.parse_optional_u32_hex_or_dec("addr").unwrap(), Some(u32::MAX));
}

#[test]
fn bad_numbers_are_refused() {
    let mut ctx = Context::new("zz tail");
    let e = ctx.parse_optional_u32_hex_or_dec("addr").unwrap_err();
    assert_eq!(e.message(), "invalid argument addr \"zz\": expected a 32-bit decimal number");
    assert_eq!(ctx.command(), "zz tail");
    let mut ctx = Context::new("0xzz");
    let e = ctx.parse_optional_u32_hex_or_dec("addr").unwrap_err();
    assert_eq!(e.message(), "invalid argument addr \"0xzz\": expected a 32-bit hex number");
    let mut ctx = Context::new("4294967296");
    assert!(ctx.parse_optional_u32_hex_or_dec("addr").is_err());
    let mut ctx = Context::new("");
    let e = ctx.parse_u32_hex_or_dec("len").unwrap_err();
    assert_eq!(e.message(), "invalid argument len \"\": expected a number");
}

#[test]
fn parse_radix_rules() {
    assert_eq!(parse_u32_radix("42", 10), Some(42));
    assert_eq!(parse_u32_radix("+42", 10), Some(42));
    assert_eq!(parse_u32_radix("+", 10), None);
    assert_eq!(parse_u32_radix("", 10), None);
    assert_eq!(parse_u32_radix("-1", 10), None);
    assert_eq!(parse_u32_radix("aF", 16), Some(0xAF));
    assert_eq!(parse_u32_radix("aF", 10), None);
    assert_eq!(parse_u32_radix("4294967295", 10), Some(u32::MAX));
    assert_eq!(parse_u32_radix("4294967296", 10), None);
    assert_eq!(parse_u32_radix("\u{663}", 10), None);
    assert_eq!(<u32 as FlagValue>::read("17"), Some(17));
    assert_eq!(<bool as FlagValue>::read("true"), Some(true));
    assert_eq!(<bool as FlagValue>::read("false"), Some(false));
    assert_eq!(<bool as FlagValue>::read("yes"), None);
}

#[test]
fn bool_flags() {
    let mut ctx = Context::new("  -v   rest");
    assert!(ctx.parse_bool_flag("-v"));
    assert_eq!(ctx.command(), "rest");
    assert!(!ctx.parse_bool_flag("-q"));
    assert_eq!(ctx.command(), "rest");
}

static COUNT: &[&str] = &["--count", "-c"];
static ON: &[&str] = &["--on"];

#[test]
fn value_flags() {
    let mut ctx = Context::new("-c 5 more");
    assert_eq!(ctx.parse_optional_flag::<u32>(COUNT).unwrap(), Some(5));
    assert_eq!(ctx.command(), "more");
    let mut ctx = Context::new("--on true x");
    assert_eq!(ctx.parse_optional_flag::<bool>(ON).unwrap(), Some(true));
    let mut ctx = Context::new("other");
    assert_eq!(ctx.parse_optional_flag::<u32>(COUNT).unwrap(), None);
    assert_eq!(ctx.command(), "other");
    let mut ctx = Context::new("--count 9 z");
    assert_eq!(ctx.parse_required_flag::<u32>(COUNT).unwrap(), 9);
}

#[test]
fn value_flag_errors() {
    let mut ctx = Context::new("--count");
    let e = ctx.parse_optional_flag::<u32>(COUNT).unwrap_err();
    assert_eq!(e.message(), "invalid argument --count \"\": expected a value");
    let mut ctx = Context::new("--count x y");
    let e = ctx.parse_optional_flag::<u32>(COUNT).unwrap_err();
    assert_eq!(e.message(), "invalid argument --count \"x\": invalid value");
    // a last flag keeps the space before its value, which then does not read
    let mut ctx = Context::new("--count 5");
    let e = ctx.parse_optional_flag::<u32>(COUNT).unwrap_err();
    assert_eq!(e.message(), "invalid argument --count \" 5\": invalid value");
    let mut ctx = Context::new("mem read");
    let e = ctx.parse_required_flag::<u32>(COUNT).unwrap_err();
    assert_eq!(e.message(), "the 'mem read' command requires the --count|-c flag");
}

#[test]
fn context_errors() {
    let ctx = Context::new("cmd arg");
    assert_eq!(ctx.invalid_argument("bad").message(), "invalid argument \"cmd arg\": bad");
    assert_eq!(ctx.invalid_argument_named("n", "bad").message(), "invalid argument n \"cmd arg\": bad");
    assert_eq!(ctx.other_error("broke").message(), "could not execute \"cmd arg\": broke");
    let cmds = table();
    assert_eq!(ctx.unknown_command(&cmds).message(), "unknown command \"cmd arg\", expected one of: [run, panic, help]");
}

#[test]
fn comma_delimited_joins() {
    assert_eq!(comma_delimited(&[]), "");
    assert_eq!(comma_delimited(&["a"]), "a");
    assert_eq!(comma_delimited(&["a", "b", "c"]), "a, b, c");
}

#[test]
fn kernel_table_help() {
    let cmds = kernel_commands();
    match eval("help", &cmds) {
        Evaluation::Help(lines) => {
            assert_eq!(lines.len(), 8);
            assert_eq!(lines[3], "  fault --- cause a CPU fault (null pointer dereference). use with caution.");
            assert_eq!(lines[5], "  shutdown --- exit the kernel and shutdown the machine.");
        },
        _ => panic!("expected help"),
    }
    match eval("version", &cmds) {
        Evaluation::Invoke(a, _) => assert_eq!(a, KernelCommand::Version),
        _ => panic!("expected version"),
    }
    assert_eq!(
        failed_kernel(eval("reboot", &cmds)),
        "unknown command \"reboot\", expected one of: [run, panic, fault, version, shutdown, help]"
    );
}

fn failed_kernel(e: Evaluation<'_, KernelCommand>) -> String {
    match e {
        Evaluation::Failed(err) => err.message(),
        _ => panic!("expected an error"),
    }
}

#[test]
fn line_editing() {
    let mut ed = LineEditor::new();
    for ch in "helq".chars() {
        assert_eq!(ed.feed(ch), None);
    }
    assert_eq!(ed.feed('\u{7f}'), None);
    assert_eq!(ed.feed('p'), None);
    assert_eq!(ed.feed('\r'), Some("help".to_string()));
    assert_eq!(ed.feed('\u{7f}'), None);
    assert_eq!(ed.feed('\n'), Some(String::new()));
}

#[test]
fn trimming_unicode_white_space() {
    let ctx = Context::new(" \u{3000}\t x y\u{a0}\n");
    assert_eq!(ctx.command(), "x y");
    let mut ctx = Context::new("\u{2003}-v\u{2003}rest ");
    assert!(ctx.parse_bool_flag("-v"));
    assert_eq!(ctx.command(), "rest");
}

#[test]
fn prefixes_and_suffixes_of_multibyte_text() {
    let cmds = vec![Command::new("héllo").with_help("greets").with_fn(Act::Run)];
    match eval("héllo wörld", &cmds) {
        Evaluation::Invoke(a, ctx) => {
            assert_eq!(a, Act::Run);
            assert_eq!(ctx.command(), "wörld");
        },
        _ => panic!("expected héllo"),
    }
    match eval("héllo help", &cmds) {
        Evaluation::Usage(n) => assert_eq!(n, "héllo"),
        _ => panic!("expected usage"),
    }
    assert_eq!(
        failed_message(eval("hé", &cmds)),
        "unknown command \"hé\", expected one of: [héllo, help]"
    );
}

#[test]
fn quoted_text_is_escaped_when_not_plain() {
    let cmds = table();
    assert_eq!(
        failed_message(eval("a\tb \"c\"", &cmds)),
        "unknown command \"a\\tb \\\"c\\\"\", expected one of: [run, panic, help]"
    );
}
