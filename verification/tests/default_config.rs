use informer::config::get_default_config;

/// The default configuration as TOML text.
const DEFAULT_TOML: &str = r#"
    [main]
    title = 'Title placeholder'
    logo = './logo.png'
    notes = true
   
    # Distinct entities that are given their own 
    # section with a link
    # Format: ['Label', 'Path']
    entities = [
        ['Metadata', './metadata.tsv']
    ]
    
    # Directories that will be searched
    # Format: ['Label', 'Path']
    directories = [
        ['Pipelines', './pipelines'],
        ['Scripts', './scripts'],
        ['QIIME2 Exports', './exports'],
        ['Notebooks', './notebooks']
    ]

    order = [
            'logo', 
            'title', 
            'notes', 
            'Metadata',
            'Scripts',
            'Pipelines',
            'Notebooks',
            'QIIME2 Exports',
    ]
    "#;

fn text_list(v: &toml::Value) -> Vec<String> {
    v.as_array()
        .unwrap()
        .iter()
        .map(|s| s.as_str().unwrap().to_owned())
        .collect()
}

fn pair_list(v: &toml::Value) -> Vec<Vec<String>> {
    v.as_array().unwrap().iter().map(text_list).collect()
}

#[test]
fn default_config_is_the_parsed_default_text() {
    let parsed: toml::Value = DEFAULT_TOML.parse().unwrap();
    let main = &parsed["main"];
    let cfg = get_default_config();

    assert_eq!(cfg.main.title.as_deref(), main["title"].as_str());
    assert_eq!(cfg.main.logo.as_deref(), main["logo"].as_str());
    assert_eq!(cfg.main.notes, main["notes"].as_bool());
    assert_eq!(cfg.main.entities, Some(pair_list(&main["entities"])));
    assert_eq!(cfg.main.directories, Some(pair_list(&main["directories"])));
    assert_eq!(cfg.main.order, Some(text_list(&main["order"])));
}
