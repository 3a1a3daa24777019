use reth_kit::help::clean::preprocess_help;
use reth_kit::help::command::Cmd;
use reth_kit::help::listing::{keep_subcommand, parse_sub_commands, Walk};
use reth_kit::help::page::{
    cmd_markdown, cmd_summary, failure_message, help_markdown, page_path, parse_description,
    summary, trim_line_ends, README,
};

const HELP: &str = "Reth\n\nUsage: reth [OPTIONS] <COMMAND>\n\nCommands:\n  node    Start the node\n  init    Initialize the database\n  db      Database debugging utilities\n  help    Print this message or the help of the given subcommand(s)\n\nOptions:\n  -h, --help\n          Print help (see a summary with '-h')\n";

#[test]
fn parse_description_splits_at_usage() {
    let (description, rest) = parse_description(HELP);
    assert_eq!(description, "Reth");
    assert!(rest.starts_with("Usage: reth [OPTIONS] <COMMAND>"));
    assert!(rest.ends_with("'-h')\n"));
}

#[test]
fn parse_description_without_usage_keeps_everything() {
    let (description, rest) = parse_description("no marker here\nat all");
    assert_eq!(description, "");
    assert_eq!(rest, "no marker here\nat all");
}

#[test]
fn parse_description_takes_the_first_line_of_the_trimmed_head() {
    let (description, rest) = parse_description("\n \t First line \r\nSecond line\n\nUsage: x");
    assert_eq!(description, "First line ");
    assert_eq!(rest, "Usage: x");
    let (description, rest) = parse_description("Usage: only");
    assert_eq!(description, "");
    assert_eq!(rest, "Usage: only");
    let (description, _) = parse_description("   \n\nUsage: y");
    assert_eq!(description, "");
}

#[test]
fn parse_description_agrees_with_str_methods() {
    let samples = [
        HELP,
        "A\u{a0}b \u{2003}\nUsage: Usage: twice",
        "tail\r",
        "a\rb\nUsage:",
        "\u{3000}wide space first\n\nUsage: z",
    ];
    for s in samples {
        let expected = match s.find("Usage:") {
            Some(idx) => (s[..idx].trim().lines().next().unwrap_or(""), &s[idx..]),
            None => ("", s),
        };
        let (description, rest) = parse_description(s);
        assert_eq!((description.as_str(), rest.as_str()), expected);
    }
}

#[test]
fn cmd_new_takes_the_file_name() {
    let cmd = Cmd::new("./target/debug/reth").unwrap();
    assert_eq!(cmd.command_name(), "reth");
    assert_eq!(cmd.path(), "./target/debug/reth");
    assert_eq!(cmd.depth(), 0);
    assert_eq!(cmd.to_string(), "reth");
    assert!(Cmd::new("..").is_none());
    assert!(Cmd::named("x", None).is_none());
    let named = Cmd::named("/opt/bin/tool", Some(String::from("tool"))).unwrap();
    assert_eq!(named.command_name(), "tool");
}

#[test]
fn cmd_child_appends_a_subcommand() {
    let cmd = Cmd::new("reth").unwrap();
    let db = cmd.child("db");
    let stats = db.child("stats");
    assert_eq!(db.to_string(), "reth db");
    assert_eq!(stats.to_string(), "reth db stats");
    assert_eq!(stats.subcommands(), vec![String::from("db"), String::from("stats")]);
    assert_eq!(stats.depth(), 2);
    assert_eq!(page_path(&stats), "reth/db/stats");
}

#[test]
fn cmd_summary_indents_by_depth() {
    let cmd = Cmd::new("reth").unwrap();
    assert_eq!(cmd_summary(&cmd, 0), "- [`reth`](/cli/reth)\n");
    assert_eq!(cmd_summary(&cmd, 2), "  - [`reth`](/cli/reth)\n");
    let stats = cmd.child("db").child("stats");
    assert_eq!(cmd_summary(&stats, 0), "    - [`reth db stats`](/cli/reth/db/stats)\n");
    assert_eq!(cmd_summary(&stats, 3), "       - [`reth db stats`](/cli/reth/db/stats)\n");
}

#[test]
fn summary_joins_the_lines() {
    let cmd = Cmd::new("reth").unwrap();
    let cmds = vec![cmd.child("node"), cmd.child("db").child("get")];
    assert_eq!(
        summary(&cmds, 1),
        "   - [`reth node`](/cli/reth/node)\n     - [`reth db get`](/cli/reth/db/get)\n"
    );
    assert_eq!(summary(&Vec::new(), 4), "");
}

#[test]
fn help_markdown_wraps_the_help() {
    let cmd = Cmd::new("reth").unwrap().child("node");
    let out = help_markdown(&cmd, "Start the node\n\nUsage: reth node [OPTIONS]\n\nOptions:\n  -h\n\n").unwrap();
    assert_eq!(
        out,
        "Start the node\n\n```bash\n$ reth node --help\n```\n```txt\nUsage: reth node [OPTIONS]\n\nOptions:\n  -h\n```"
    );
    let page = cmd_markdown(&cmd, "Start the node\n\nUsage: reth node [OPTIONS]\n").unwrap();
    assert_eq!(
        page,
        "# reth node\n\nStart the node\n\n```bash\n$ reth node --help\n```\n```txt\nUsage: reth node [OPTIONS]\n```"
    );
}

#[test]
fn preprocess_help_replaces_machine_dependent_defaults() {
    let out = preprocess_help("[default: /home/me/.cache/reth]").unwrap();
    assert_eq!(out, "[default: <CACHE_DIR>]");
    let out = preprocess_help("[default: reth/v1.0.0-abcdef12/x86_64-unknown-linux-gnu]").unwrap();
    assert_eq!(out, "[default: reth/<VERSION>-<SHA>/<ARCH>]");
    let out = preprocess_help("[default: reth/v1.0.0/linux]").unwrap();
    assert_eq!(out, "[default: reth/<VERSION>/<OS>]");
    let out = preprocess_help("--engine.reserved-cpu-cores <N> cores [default: 2]").unwrap();
    assert_eq!(out, "--engine.reserved-cpu-cores <N> cores [default: <DYNAMIC: min(2, CPU cores)>]");
    let out = preprocess_help("--engine.max-proof-task-concurrency <N> [default: 256]").unwrap();
    assert_eq!(out, "--engine.max-proof-task-concurrency <N> [default: <DYNAMIC: CPU cores * 8>]");
    let tracing = "--rpc.max-tracing-requests <COUNT>\n a\n b\n c\n d\n [default: 14]";
    let out = preprocess_help(tracing).unwrap();
    assert_eq!(out, "--rpc.max-tracing-requests <COUNT>\n a\n b\n c\n d\n [default: <NUM CPU CORES-2>]");
    assert_eq!(preprocess_help("nothing to replace").unwrap(), "nothing to replace");
}

#[test]
fn parse_sub_commands_lists_all_but_help() {
    let subs = parse_sub_commands(HELP).unwrap();
    assert_eq!(subs, vec![String::from("node"), String::from("init"), String::from("db")]);
}

#[test]
fn parse_sub_commands_without_section_is_empty() {
    assert_eq!(parse_sub_commands("Usage: reth node\n\nOptions:\n  -h\n").unwrap(), Vec::<String>::new());
    assert_eq!(parse_sub_commands("").unwrap(), Vec::<String>::new());
}

#[test]
fn parse_sub_commands_stops_at_headings_and_second_marker() {
    let text = "Commands:\n  a  first\n   deeper\n\tb\n  c\nArguments:\n  d\n";
    assert_eq!(parse_sub_commands(text).unwrap(), vec![String::from("a"), String::from("c")]);
    let text = "Commands:\n  a\n  Commands:\n  b\n";
    assert_eq!(parse_sub_commands(text).unwrap(), vec![String::from("a")]);
    let text = "x Commands:  same-line\n  y\r\n  z";
    assert_eq!(parse_sub_commands(text).unwrap(), vec![String::from("same-line"), String::from("y"), String::from("z")]);
}

#[test]
fn keep_subcommand_drops_help() {
    assert_eq!(keep_subcommand(Some(String::from("help"))), None);
    assert_eq!(keep_subcommand(Some(String::from("helper"))), Some(String::from("helper")));
    assert_eq!(keep_subcommand(None), None);
}

#[test]
fn trim_line_ends_trims_each_line() {
    assert_eq!(trim_line_ends("a  \nb\t\r\n\n  c \n"), "a\nb\n\n  c");
    assert_eq!(trim_line_ends(""), "");
    assert_eq!(trim_line_ends("\n"), "");
    assert_eq!(trim_line_ends("x \u{2003}"), "x");
    assert_eq!(trim_line_ends(README), README.trim_end());
}

#[test]
fn trim_line_ends_agrees_with_str_methods() {
    let samples = ["a  \nb\t\r\n\n  c \n", "one\r", " \n \n", "tab\t\nend", "\r\n\r\n"];
    for s in samples {
        let expected = s.lines().map(|line| line.trim_end()).collect::<Vec<_>>().join("\n");
        assert_eq!(trim_line_ends(s), expected);
    }
}

#[test]
fn failure_message_names_the_command() {
    let cmd = Cmd::new("/usr/bin/reth").unwrap().child("db");
    assert_eq!(failure_message(&cmd, "boom"), "Command \"reth db\" failed:\nboom");
}

#[test]
fn walk_visits_commands_before_their_subcommands() {
    let root = Cmd::new("reth").unwrap();
    let other = Cmd::new("op-reth").unwrap();
    let mut walk = Walk::start(vec![root, other]);
    let mut seen = Vec::new();
    while let Some(cmd) = walk.next() {
        let name = cmd.to_string();
        let subs: Vec<String> = match name.as_str() {
            "reth" => vec![String::from("node"), String::from("db")],
            "reth db" => vec![String::from("get"), String::from("list")],
            _ => Vec::new(),
        };
        seen.push(name.clone());
        walk.record(cmd, format!("help of {name}"), &subs);
    }
    assert_eq!(
        seen,
        vec!["reth", "reth node", "reth db", "reth db get", "reth db list", "op-reth"]
    );
    let visited: Vec<String> = walk.commands().iter().map(|c| c.to_string()).collect();
    assert_eq!(visited, seen);
    assert_eq!(walk.output(2), "help of reth db");
}
