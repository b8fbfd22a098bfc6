use brush_parser::ast;

use rust_bash::interpreter::analysis::{
    collect_commands, literal_command_name, push_unique, AndOrList, CollectedCommands, Command, CommandItem,
    CompoundCommand, CompoundList, ElseClause, Pipeline, Program, SimpleCommand,
};
use rust_bash::python::{PythonLimits, PythonOutput};

/// The library's tree of a parsed program.
fn program_of(p: &ast::Program) -> Program {
    Program { complete_commands: p.complete_commands.iter().map(list_of).collect() }
}

fn list_of(l: &ast::CompoundList) -> CompoundList {
    CompoundList(l.0.iter().map(|ast::CompoundListItem(and_or, _)| and_or_of(and_or)).collect())
}

fn and_or_of(a: &ast::AndOrList) -> AndOrList {
    AndOrList {
        first: pipeline_of(&a.first),
        additional: a
            .additional
            .iter()
            .map(|x| match x {
                ast::AndOr::And(p) => pipeline_of(p),
                ast::AndOr::Or(p) => pipeline_of(p),
            })
            .collect(),
    }
}

fn pipeline_of(p: &ast::Pipeline) -> Pipeline {
    Pipeline { seq: p.seq.iter().map(command_of).collect() }
}

fn command_of(c: &ast::Command) -> Command {
    match c {
        ast::Command::Simple(s) => Command::Simple(simple_of(s)),
        ast::Command::Compound(cc, _) => Command::Compound(compound_of(cc)),
        ast::Command::Function(f) => {
            Command::Function { fname: f.fname.value.clone(), body: compound_of(&f.body.0) }
        }
        ast::Command::ExtendedTest(_, _) => Command::ExtendedTest,
    }
}

fn item_of(item: &ast::CommandPrefixOrSuffixItem) -> CommandItem {
    match item {
        ast::CommandPrefixOrSuffixItem::ProcessSubstitution(_, subshell) => {
            CommandItem::ProcessSubstitution(list_of(&subshell.list))
        }
        _ => CommandItem::Other,
    }
}

fn simple_of(s: &ast::SimpleCommand) -> SimpleCommand {
    SimpleCommand {
        word_or_name: s.word_or_name.as_ref().map(|w| w.value.clone()),
        prefix: s.prefix.as_ref().map(|p| p.0.iter().map(item_of).collect()).unwrap_or_default(),
        suffix: s.suffix.as_ref().map(|p| p.0.iter().map(item_of).collect()).unwrap_or_default(),
    }
}

fn compound_of(c: &ast::CompoundCommand) -> CompoundCommand {
    match c {
        ast::CompoundCommand::Arithmetic(_) => CompoundCommand::Arithmetic,
        ast::CompoundCommand::ArithmeticForClause(f) => CompoundCommand::ArithmeticForClause(list_of(&f.body.list)),
        ast::CompoundCommand::BraceGroup(b) => CompoundCommand::BraceGroup(list_of(&b.list)),
        ast::CompoundCommand::Subshell(s) => CompoundCommand::Subshell(list_of(&s.list)),
        ast::CompoundCommand::ForClause(f) => CompoundCommand::ForClause(list_of(&f.body.list)),
        ast::CompoundCommand::CaseClause(cc) => {
            CompoundCommand::CaseClause(cc.cases.iter().map(|item| item.cmd.as_ref().map(list_of)).collect())
        }
        ast::CompoundCommand::IfClause(ic) => CompoundCommand::IfClause {
            condition: list_of(&ic.condition),
            then: list_of(&ic.then),
            elses: ic.elses.as_ref().map(|es| {
                es.iter()
                    .map(|e| ElseClause { condition: e.condition.as_ref().map(list_of), body: list_of(&e.body) })
                    .collect()
            }),
        },
        ast::CompoundCommand::WhileClause(w) => CompoundCommand::WhileClause(list_of(&w.0), list_of(&w.1.list)),
        ast::CompoundCommand::UntilClause(w) => CompoundCommand::UntilClause(list_of(&w.0), list_of(&w.1.list)),
        ast::CompoundCommand::Coprocess(cp) => CompoundCommand::Coprocess(Box::new(command_of(&cp.body))),
    }
}

fn names(script: &str) -> CollectedCommands {
    let reader = std::io::BufReader::new(script.as_bytes());
    let mut parser = brush_parser::Parser::new(reader, &brush_parser::ParserOptions::default());
    collect_commands(&program_of(&parser.parse_program().unwrap()))
}

#[test]
fn collects_top_level_command_names() {
    let out = names("echo hi; cat /etc/hosts");
    assert_eq!(out.commands, vec!["echo", "cat"]);
}

#[test]
fn deduplicates_command_names_in_encounter_order() {
    let out = names("grep -n foo; echo hi; grep -n bar");
    assert_eq!(out.commands, vec!["grep", "echo"]);
}

#[test]
fn skips_assignment_only_commands() {
    let out = names("FOO=bar");
    assert!(out.commands.is_empty());
}

#[test]
fn skips_dynamic_command_names() {
    let out = names("$cmd status");
    assert!(out.commands.is_empty());
}

#[test]
fn collects_names_inside_function_bodies() {
    let out = names("deploy() {\n  git pull\n  make -j4\n}\ndeploy");
    assert_eq!(out.commands, vec!["git", "make", "deploy"]);
    assert_eq!(out.defined_functions, vec!["deploy"]);
}

#[test]
fn collects_names_inside_compound_bodies() {
    let out = names("if true; then alpha one; elif false; then beta two; else gamma three; fi");
    assert_eq!(out.commands, vec!["true", "alpha", "false", "beta", "gamma"]);
}

#[test]
fn collects_names_inside_loops_and_case() {
    let out = names("for f in a b; do delta $f; done\nwhile false; do epsilon; done\ncase x in *) zeta;; esac");
    assert_eq!(out.commands, vec!["delta", "false", "epsilon", "zeta"]);
}

#[test]
fn collects_names_inside_pipelines_and_subshells() {
    let out = names("(eta | theta) && iota");
    assert_eq!(out.commands, vec!["eta", "theta", "iota"]);
}

#[test]
fn collects_names_inside_process_substitution() {
    let out = names("diff <(sort a.txt) <(sort b.txt)");
    assert_eq!(out.commands, vec!["diff", "sort"]);
}

#[test]
fn ignores_arithmetic_and_extended_tests() {
    let out = names("(( x = 1 + 2 )); [[ -n \"$v\" ]]");
    assert!(out.commands.is_empty());
}

#[test]
fn function_names_dedup_separately_from_commands() {
    let out = names("f() { f; }\nf() { g; }\nuntil h; do f; done");
    assert_eq!(out.defined_functions, vec!["f"]);
    assert_eq!(out.commands, vec!["f", "g", "h"]);
}

#[test]
fn walk_of_a_hand_built_tree() {
    let simple = |w: &str| Command::Simple(SimpleCommand {
        word_or_name: Some(w.to_string()),
        prefix: Vec::new(),
        suffix: vec![CommandItem::Other],
    });
    let list = |cmds: Vec<Command>| CompoundList(vec![AndOrList { first: Pipeline { seq: cmds }, additional: Vec::new() }]);
    let prog = Program {
        complete_commands: vec![list(vec![
            simple("a"),
            Command::Compound(CompoundCommand::CaseClause(vec![None, Some(list(vec![simple("b"), simple("a")]))])),
            Command::Function { fname: "$x".to_string(), body: CompoundCommand::BraceGroup(list(vec![simple("c")])) },
            Command::ExtendedTest,
        ])],
    };
    let out = collect_commands(&prog);
    assert_eq!(out.commands, vec!["a", "b", "c"]);
    assert!(out.defined_functions.is_empty());
}

#[test]
fn push_unique_keeps_first_encounter_order() {
    let mut v: Vec<String> = Vec::new();
    for n in ["grep", "echo", "grep", "cat", "echo"] {
        push_unique(&mut v, n.to_string());
    }
    assert_eq!(v, vec!["grep", "echo", "cat"]);
}

#[test]
fn literal_names_only() {
    assert_eq!(literal_command_name("git"), Some("git"));
    assert_eq!(literal_command_name("x86_64-linux-gcc"), Some("x86_64-linux-gcc"));
    assert_eq!(literal_command_name("a.b:c%d@e+f"), Some("a.b:c%d@e+f"));
    assert_eq!(literal_command_name("$cmd"), None);
    assert_eq!(literal_command_name("\"echo\""), None);
    assert_eq!(literal_command_name("*.sh"), None);
    assert_eq!(literal_command_name(""), None);
    assert_eq!(literal_command_name("é"), None);
}

#[test]
fn plain_data_defaults() {
    let c = CollectedCommands::default();
    assert!(c.commands.is_empty() && c.defined_functions.is_empty());
    let l = PythonLimits::default();
    assert_eq!((l.fuel, l.max_file_size), (None, None));
    let o = PythonOutput { stdout: b"hi\n".to_vec(), stderr: Vec::new(), exit_code: 0 };
    assert_eq!(o.clone().stdout, b"hi\n".to_vec());
}
