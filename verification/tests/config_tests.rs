use extscan::cli;
use extscan::error::Error;
use extscan::{App, Config, EngineType};

fn s(x: &str) -> String {
    String::from(x)
}

fn cli_args(engine: cli::EngineType, magic_file: Option<String>) -> cli::Args {
    cli::Args {
        path: s("some/where"),
        engine,
        magic_file,
        recursive: true,
        ignore: false,
    }
}

#[test]
fn app_keeps_its_configuration() {
    let config = Config {
        file_path: s("tests/data/"),
        engine_type: EngineType::LibMagic,
        magic_file: Some(s("custom.mgc")),
        recursive: false,
        ignore: true,
    };
    let app = App::new(config);
    let held = app.config();
    assert_eq!(held.file_path, "tests/data/");
    assert_eq!(held.engine_type, EngineType::LibMagic);
    assert_eq!(held.magic_file, Some(s("custom.mgc")));
    assert!(!held.recursive);
    assert!(held.ignore);
}

#[test]
fn engine_labels() {
    assert_eq!(cli::EngineType::Libmagic.label(), "libmagic");
    assert_eq!(cli::EngineType::Magika.label(), "magika");
}

#[test]
fn arguments_become_configuration() {
    let config = cli_args(cli::EngineType::Magika, None).to_config();
    assert_eq!(config.file_path, "some/where");
    assert_eq!(config.engine_type, EngineType::Magika);
    assert_eq!(config.magic_file, None);
    assert!(config.recursive);
    assert!(!config.ignore);
}

#[test]
fn magic_file_warning_only_off_libmagic() {
    assert!(cli_args(cli::EngineType::Magika, Some(s("db.mgc"))).magic_file_ignored());
    assert!(!cli_args(cli::EngineType::Libmagic, Some(s("db.mgc"))).magic_file_ignored());
    assert!(!cli_args(cli::EngineType::Magika, None).magic_file_ignored());
}

#[test]
fn error_carries_its_message() {
    assert_eq!(Error::Magic(s("magic_open failed")).message(), "magic_open failed");
    assert_eq!(Error::Io(s("permission denied")).message(), "permission denied");
    assert_eq!(Error::Other(s("no extension")).message(), "no extension");
    assert_eq!(Error::Magika(s("no model")).message(), "no model");
    assert_eq!(Error::Utf8(s("bad bytes")).message(), "bad bytes");
    assert_eq!(Error::Nul(s("interior nul")).message(), "interior nul");
}
