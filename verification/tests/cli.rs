use jjump::cli::Args;
use jjump::cli::CommandAdd;
use jjump::cli::CommandGoto;
use jjump::cli::Commands;

#[test]
fn explicit_subcommand_wins() {
    let args = Args {
        subcommand: Some(Commands::Add(CommandAdd {
            destination: "/home/u/proj".to_string(),
            names: vec!["proj".to_string()],
        })),
        goto: Some(CommandGoto { name: "ignored".to_string() }),
    };
    let picked = args.command();
    assert!(matches!(picked, Some(Commands::Add(a)) if a.destination == "/home/u/proj"));
}

#[test]
fn bare_name_falls_back_to_goto() {
    let args = Args {
        subcommand: None,
        goto: Some(CommandGoto { name: "proj".to_string() }),
    };
    let picked = args.command();
    assert!(matches!(picked, Some(Commands::Goto(g)) if g.name == "proj"));
}

#[test]
fn nothing_asks_for_nothing() {
    let args = Args { subcommand: None, goto: None };
    assert_eq!(args.command(), None);
}
