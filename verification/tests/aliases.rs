use wenv::cli::Cli;
use wenv::cli::Commands;
use wenv::config::AliasEntry;
use wenv::config::Config;
use wenv::config::LocalConfig;
use wenv::config::LocalMemoryConfig;
use wenv::config::MemoryConfig;
use wenv::config::default_enabled;
use wenv::config::default_max_entries;

fn s(x: &str) -> String {
    String::from(x)
}

fn files(xs: &[&str]) -> Vec<String> {
    xs.iter().map(|x| String::from(*x)).collect()
}

fn local_with_dev_alias() -> LocalConfig {
    LocalConfig {
        memory: LocalMemoryConfig::default(),
        aliases: vec![
            AliasEntry { name: s("dev"), files: files(&[".env", ".env.dev"]) },
            AliasEntry { name: s("prod"), files: files(&[".env.prod"]) },
        ],
    }
}

#[test]
fn alias_token_expands_to_its_files_in_place() {
    let local = local_with_dev_alias();
    let got = local.expand_aliases(&files(&["@dev", "extra.env"]));
    assert_eq!(got, files(&[".env", ".env.dev", "extra.env"]));
}

#[test]
fn unknown_alias_token_stays_as_written() {
    let local = local_with_dev_alias();
    let got = local.expand_aliases(&files(&["@nope"]));
    assert_eq!(got, files(&["@nope"]));
}

#[test]
fn plain_paths_pass_through_unchanged() {
    let local = local_with_dev_alias();
    let got = local.expand_aliases(&files(&["a.env", "b.env"]));
    assert_eq!(got, files(&["a.env", "b.env"]));
}

#[test]
fn several_alias_tokens_expand_in_order() {
    let local = local_with_dev_alias();
    let got = local.expand_aliases(&files(&["@prod", "@dev"]));
    assert_eq!(got, files(&[".env.prod", ".env", ".env.dev"]));
}

#[test]
fn empty_input_expands_to_nothing() {
    let local = local_with_dev_alias();
    assert_eq!(local.expand_aliases(&files(&[])), files(&[]));
}

#[test]
fn memory_defaults_are_enabled_with_ten_entries() {
    assert!(default_enabled());
    assert_eq!(default_max_entries(), 10);
    let c = MemoryConfig::default();
    assert!(c.enabled);
    assert_eq!(c.max_entries, 10);
    let g = Config::default();
    assert!(g.memory.enabled);
    assert_eq!(g.memory.max_entries, 10);
}

#[test]
fn local_config_defaults_leave_the_memory_flag_unset() {
    let l = LocalConfig::default();
    assert!(l.memory.enabled.is_none());
    assert!(l.aliases.is_empty());
}

#[test]
fn cli_shape_carries_an_invocation() {
    let cli = Cli {
        env_files: files(&["@dev"]),
        watch: true,
        command: files(&["npm", "start"]),
        subcommand: None,
    };
    assert!(cli.watch);
    assert_eq!(cli.command.len(), 2);
    let ls = Cli {
        env_files: files(&[]),
        watch: false,
        command: files(&[]),
        subcommand: Some(Commands::Ls),
    };
    assert!(matches!(ls.subcommand, Some(Commands::Ls)));
}
