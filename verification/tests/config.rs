use arid::config::{render_config_text, LoadedSettings, Settings};

fn loaded(config_path: Option<&str>) -> LoadedSettings {
    let mut settings = Settings::default();
    settings.min_lines = 7;
    settings.hidden = true;
    settings.exclude = vec!["generated/**".to_string(), "build/**".to_string()];
    LoadedSettings {
        settings,
        config_path: config_path.map(|p| p.to_string()),
        project_root: "/work/project".to_string(),
    }
}

#[test]
fn config_text_lists_every_setting() {
    let text = render_config_text(&loaded(Some("/work/project/pyproject.toml")), false, Some("/work/project/debt.json"));
    assert_eq!(
        text,
        "Project root: /work/project\n\
         Configuration: /work/project/pyproject.toml\n\
         Min lines: 7\n\
         Ignore comments: true\n\
         Ignore docstrings: true\n\
         Ignore imports: true\n\
         Ignore signatures: true\n\
         Same-file detection: true\n\
         Hidden files: true\n\
         Exclude:\n  generated/**\n  build/**\n\
         Baseline: /work/project/debt.json\n"
    );
}

#[test]
fn config_text_shows_disabled_configuration_and_baseline() {
    let mut disabled = loaded(Some("/work/project/pyproject.toml"));
    disabled.settings.exclude.clear();
    let text = render_config_text(&disabled, true, None);
    assert!(text.contains("Configuration: disabled (--no-config)\n"));
    assert!(text.contains("Exclude: none\n"));
    assert!(text.ends_with("Baseline: disabled\n"));

    let none = render_config_text(&loaded(None), false, None);
    assert!(none.contains("Configuration: none\n"));
}
