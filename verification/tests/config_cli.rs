use rsnote_cli::config::{Config, ConfigError};
use rsnote_cli::{Cli, Commands};

#[test]
fn test_config_holds_notes_dir() {
    let c = Config::new("/tmp/notes".to_string());
    assert_eq!(c.notes_dir, "/tmp/notes");
}

#[test]
fn test_config_error_variants_carry_messages() {
    let e = ConfigError::Parse("bad key".to_string());
    assert!(matches!(e, ConfigError::Parse(ref m) if m == "bad key"));
    let io = ConfigError::Io("denied".to_string());
    assert!(matches!(io, ConfigError::Io(_)));
    let s = ConfigError::Serialize("oops".to_string());
    assert!(matches!(s, ConfigError::Serialize(_)));
}

#[test]
fn test_cli_command_data() {
    let cli = Cli {
        command: Commands::New { title: "T".to_string(), content: Some("C".to_string()) },
    };
    match cli.command {
        Commands::New { title, content } => {
            assert_eq!(title, "T");
            assert_eq!(content.as_deref(), Some("C"));
        }
        _ => panic!("wrong command"),
    }
    let show = Commands::Show { identifier: "1".to_string() };
    assert!(matches!(show, Commands::Show { .. }));
}
