use autoeq2camilladsp::crossfeed::Crossfeed;
use autoeq2camilladsp::userinterface::{
    cli_mode_check, Cli, CliMode, Config, DevicesFile, OutputJson,
};

fn layout() -> Config {
    Config::new(
        b"https://github.com".to_vec(),
        b"https://raw.githubusercontent.com".to_vec(),
        b"/jaakkopasanen/AutoEq/tree/master/results".to_vec(),
        b"ParametricEQ.txt".to_vec(),
    )
}

#[test]
fn repo_url_concatenates_root_and_path() {
    assert_eq!(
        layout().repo_url(),
        b"https://github.com/jaakkopasanen/AutoEq/tree/master/results".to_vec()
    );
}

#[test]
fn headphone_url_drops_blob_and_appends_the_device_name() {
    let url = layout().headphone_url(b"/jaakkopasanen/AutoEq/blob/master/results/oratory1990/harman_over-ear_2018/Sony WH-1000XM4");
    assert_eq!(
        url,
        b"https://raw.githubusercontent.com/jaakkopasanen/AutoEq/master/results/oratory1990/harman_over-ear_2018/Sony WH-1000XM4/Sony WH-1000XM4%20ParametricEQ.txt"
            .to_vec()
    );
}

#[test]
fn raw_eq_url_drops_blob() {
    let url = layout().raw_eq_url(b"/jaakkopasanen/AutoEq/blob/master/results/a/b/c.txt");
    assert_eq!(
        url,
        b"https://raw.githubusercontent.com/jaakkopasanen/AutoEq/master/results/a/b/c.txt"
            .to_vec()
    );
}

#[test]
fn subcommand_selects_noninteractive_mode() {
    assert_eq!(cli_mode_check(true), CliMode::NonInteractive);
    assert_eq!(cli_mode_check(false), CliMode::Interactive);
}

#[test]
fn fresh_session_has_defaults() {
    let cli = Cli::initialize();
    assert!(cli.headphone.is_empty());
    assert!(cli.headphone_url.is_empty());
    assert_eq!(cli.devices, DevicesFile::Bundled);
    assert_eq!(cli.crossfeed, Crossfeed::Off);
}

#[test]
fn listing_names_every_preset() {
    let json = OutputJson::new();
    assert!(json.autoeq_list.is_empty());
    assert_eq!(
        json.crossfeed_presets,
        vec![b"None".to_vec(), b"PowChuMoy".to_vec(), b"Mmp".to_vec()]
    );
}

#[test]
fn listing_rows_carry_the_text_extension() {
    let mut json = OutputJson::new();
    json.push_entry(b"sony wh-1000xm4".to_vec(), b"/results/xm4".to_vec());
    assert_eq!(json.autoeq_list.len(), 1);
    assert_eq!(json.autoeq_list[0].name, b"sony wh-1000xm4".to_vec());
    assert_eq!(json.autoeq_list[0].link, b"/results/xm4.txt".to_vec());
}
