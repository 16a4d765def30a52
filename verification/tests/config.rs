use audio_connector::config::{load_config, load_document, Disk, Load, Loaded};
use audio_connector::document::parse_table;
use audio_connector::paths::{include_path, PathStyle};
use audio_connector::value::{ConfigValue, Table};

/// Files by name, all below one directory.
struct Files {
    files: Vec<(String, String)>,
}

const DIR: &str = "/etc/maps";

impl Files {
    fn new() -> Files {
        Files { files: Vec::new() }
    }

    fn write(&mut self, name: &str, body: &str) -> String {
        let path = format!("{DIR}/{name}");
        self.files.push((path.clone(), body.to_string()));
        path
    }

    fn find(&self, path: &str) -> Option<&String> {
        self.files.iter().find(|(name, _)| name == path).map(|(_, body)| body)
    }

    fn load_all(&self, path: &str) -> Result<Loaded, String> {
        let mut disk = Disk::new(PathStyle::Slashes);
        loop {
            match load_config(&disk, path) {
                Load::Resolve(path) => {
                    let answer = match self.find(&path) {
                        Some(_) => Ok(path.clone()),
                        None => Err("no such file".to_string()),
                    };
                    disk.add_name(path, answer);
                }
                Load::Read(file) => {
                    let text = self.find(&file).unwrap().clone();
                    let answer = if text == "unreadable" {
                        Err("permission denied".to_string())
                    } else {
                        Ok(text)
                    };
                    disk.add_text(file, answer);
                }
                Load::Join(file, name) => panic!("'{name}' in '{file}' can be told from the names"),
                Load::Failed(why) => return Err(why),
                Load::Complete(loaded) => return Ok(loaded),
            }
        }
    }

    fn load(&self, path: &str) -> Result<Table, String> {
        self.load_all(path).map(|loaded| loaded.table)
    }
}

/// Pull a client/key edge list out of a loaded config, for assertions.
fn edges(t: &Table, client: &str, key: &str) -> Vec<String> {
    let keys = match t.get(client) {
        Some(ConfigValue::Table(keys)) => keys,
        _ => panic!("no table '{client}'"),
    };
    let items = match keys.get(key) {
        Some(ConfigValue::Array(items)) => items,
        _ => panic!("no array '{client}:{key}'"),
    };
    items
        .iter()
        .map(|v| match v {
            ConfigValue::Text(s) => s.clone(),
            _ => panic!("not a string in '{client}:{key}'"),
        })
        .collect()
}

#[test]
fn loads_a_single_file() {
    let mut files = Files::new();
    let p = files.write(
        "c.toml",
        r#"
            [synth]
            out_left = ["mixer:in_1", "rec:in_1"]
        "#,
    );
    let cfg = files.load(&p).unwrap();
    assert_eq!(edges(&cfg, "synth", "out_left"), ["mixer:in_1", "rec:in_1"]);
}

#[test]
fn include_pulls_in_child_clients() {
    let mut files = Files::new();
    files.write(
        "child.toml",
        r#"
            [drums]
            out = ["mixer:in_9"]
        "#,
    );
    let base = files.write(
        "base.toml",
        r#"
            include = ["child.toml"]
            [synth]
            out = ["mixer:in_1"]
        "#,
    );
    let cfg = files.load(&base).unwrap();
    assert_eq!(edges(&cfg, "synth", "out"), ["mixer:in_1"]);
    assert_eq!(edges(&cfg, "drums", "out"), ["mixer:in_9"]);
    // The `include` directive itself must not survive as a client.
    assert!(cfg.get("include").is_none());
}

#[test]
fn include_merges_keys_within_same_client() {
    let mut files = Files::new();
    files.write(
        "child.toml",
        r#"
            [synth]
            aux = ["fx:in_1"]
        "#,
    );
    let base = files.write(
        "base.toml",
        r#"
            include = ["child.toml"]
            [synth]
            main = ["mixer:in_1"]
        "#,
    );
    let cfg = files.load(&base).unwrap();
    assert_eq!(edges(&cfg, "synth", "aux"), ["fx:in_1"]);
    assert_eq!(edges(&cfg, "synth", "main"), ["mixer:in_1"]);
}

#[test]
fn include_concats_arrays_with_dedup_includes_first() {
    let mut files = Files::new();
    files.write(
        "child.toml",
        r#"
            [synth]
            out = ["b", "c"]
        "#,
    );
    let base = files.write(
        "base.toml",
        r#"
            include = ["child.toml"]
            [synth]
            out = ["a", "b"]
        "#,
    );
    let cfg = files.load(&base).unwrap();
    // Included file is the base; the including file's items are appended,
    // with duplicates ("b") dropped.
    assert_eq!(edges(&cfg, "synth", "out"), ["b", "c", "a"]);
}

#[test]
fn include_path_is_relative_to_including_file() {
    let mut files = Files::new();
    files.write(
        "sub/child.toml",
        r#"
            [drums]
            out = ["mixer:in_9"]
        "#,
    );
    let base = files.write(
        "base.toml",
        r#"
            include = ["sub/child.toml"]
        "#,
    );
    let cfg = files.load(&base).unwrap();
    assert_eq!(edges(&cfg, "drums", "out"), ["mixer:in_9"]);
}

#[test]
fn circular_include_is_rejected() {
    let mut files = Files::new();
    let a = files.write("a.toml", "include = [\"b.toml\"]\n");
    files.write("b.toml", "include = [\"a.toml\"]\n");
    let err = files.load(&a).unwrap_err();
    assert!(err.contains("circular"), "unexpected error: {err}");
    assert_eq!(err, "circular include detected at /etc/maps/a.toml");
}

#[test]
fn missing_file_is_an_error() {
    let files = Files::new();
    assert!(files.load(&format!("{DIR}/nope.toml")).is_err());
    assert_eq!(
        files.load("/etc/maps/nope.toml").unwrap_err(),
        "/etc/maps/nope.toml: no such file"
    );
}

#[test]
fn missing_include_target_is_an_error() {
    let mut files = Files::new();
    let base = files.write("base.toml", "include = [\"ghost.toml\"]\n");
    assert!(files.load(&base).is_err());
    assert_eq!(files.load(&base).unwrap_err(), "/etc/maps/ghost.toml: no such file");
}

#[test]
fn non_array_include_is_an_error() {
    let mut files = Files::new();
    let base = files.write("base.toml", "include = \"child.toml\"\n");
    assert!(files.load(&base).is_err());
    assert_eq!(
        files.load(&base).unwrap_err(),
        "`include` in /etc/maps/base.toml must be an array"
    );
}

#[test]
fn non_string_include_is_an_error() {
    let mut files = Files::new();
    let base = files.write("base.toml", "include = [1]\n");
    assert_eq!(
        files.load(&base).unwrap_err(),
        "`include` in /etc/maps/base.toml must be path strings"
    );
}

#[test]
fn includes_before_a_bad_one_are_looked_at_first() {
    let mut files = Files::new();
    let base = files.write("base.toml", "include = [\"ghost.toml\", 1]\n");
    assert_eq!(files.load(&base).unwrap_err(), "/etc/maps/ghost.toml: no such file");
}

#[test]
fn unreadable_file_is_an_error() {
    let mut files = Files::new();
    let base = files.write("base.toml", "unreadable");
    assert_eq!(files.load(&base).unwrap_err(), "/etc/maps/base.toml: permission denied");
}

#[test]
fn malformed_toml_is_an_error() {
    let mut files = Files::new();
    let base = files.write("base.toml", "[synth\n");
    let err = files.load(&base).unwrap_err();
    assert!(err.starts_with("/etc/maps/base.toml: "), "unexpected error: {err}");
    assert!(err.len() > "/etc/maps/base.toml: ".len());
}

#[test]
fn diamonds_are_fine_and_sources_are_listed() {
    let mut files = Files::new();
    files.write("shared.toml", "[drums]\nout = [\"mixer:in_9\"]\n");
    files.write("left.toml", "include = [\"shared.toml\"]\n[l]\nout = [\"a\"]\n");
    files.write("right.toml", "include = [\"shared.toml\"]\n[r]\nout = [\"b\"]\n");
    let base = files.write("base.toml", "include = [\"left.toml\", \"right.toml\"]\n");
    let loaded = files.load_all(&base).unwrap();
    assert_eq!(edges(&loaded.table, "drums", "out"), ["mixer:in_9"]);
    assert_eq!(edges(&loaded.table, "l", "out"), ["a"]);
    assert_eq!(edges(&loaded.table, "r", "out"), ["b"]);
    assert_eq!(
        loaded.sources,
        [
            "/etc/maps/base.toml",
            "/etc/maps/left.toml",
            "/etc/maps/shared.toml",
            "/etc/maps/right.toml",
            "/etc/maps/shared.toml",
        ]
    );
}

#[test]
fn a_file_that_includes_itself_is_rejected() {
    let mut files = Files::new();
    let a = files.write("a.toml", "include = [\"a.toml\"]\n");
    assert_eq!(files.load(&a).unwrap_err(), "circular include detected at /etc/maps/a.toml");
}

#[test]
fn own_scalars_win_over_included_ones() {
    let mut files = Files::new();
    files.write("child.toml", "[synth]\nlevel = 1\nkept = 3\n");
    let base = files.write("base.toml", "include = [\"child.toml\"]\n[synth]\nlevel = 2\n");
    let cfg = files.load(&base).unwrap();
    let synth = match cfg.get("synth") {
        Some(ConfigValue::Table(t)) => t,
        _ => panic!("no table"),
    };
    assert!(matches!(synth.get("level"), Some(ConfigValue::Integer(2))));
    assert!(matches!(synth.get("kept"), Some(ConfigValue::Integer(3))));
}

#[test]
fn absolute_includes_stand_for_themselves() {
    let mut files = Files::new();
    files.files.push(("/opt/x.toml".to_string(), "[x]\nout = [\"y\"]\n".to_string()));
    let base = files.write("base.toml", "include = [\"/opt/x.toml\"]\n");
    assert_eq!(edges(&files.load(&base).unwrap(), "x", "out"), ["y"]);
}

#[test]
fn paths_of_includes() {
    assert_eq!(include_path("/d/a.toml", "b.toml"), "/d/b.toml");
    assert_eq!(include_path("/a.toml", "b.toml"), "/b.toml");
    assert_eq!(include_path("/d/a.toml", "/b.toml"), "/b.toml");
    assert_eq!(include_path("/d/e/a.toml", "../b.toml"), "/d/e/../b.toml");
    assert_eq!(include_path("a.toml", "b.toml"), "b.toml");
    assert_eq!(include_path("/\u{e9}/a.toml", "\u{fc}.toml"), "/\u{e9}/\u{fc}.toml");
}

#[test]
fn loading_asks_for_one_thing_at_a_time() {
    let mut disk = Disk::new(PathStyle::Slashes);
    match load_config(&disk, "m.toml") {
        Load::Resolve(path) => assert_eq!(path, "m.toml"),
        _ => panic!("the name is not known yet"),
    }
    disk.add_name("m.toml".to_string(), Ok("/m.toml".to_string()));
    match load_config(&disk, "m.toml") {
        Load::Read(file) => assert_eq!(file, "/m.toml"),
        _ => panic!("the text is not known yet"),
    }
    disk.add_text("/m.toml".to_string(), Ok("[a]\nb = [\"c\"]\n".to_string()));
    // A later answer does not replace an earlier one.
    disk.add_text("/m.toml".to_string(), Ok("[z]\n".to_string()));
    match load_config(&disk, "m.toml") {
        Load::Complete(loaded) => {
            assert_eq!(edges(&loaded.table, "a", "b"), ["c"]);
            assert!(loaded.table.get("z").is_none());
        }
        _ => panic!("everything is known"),
    }
}

#[test]
fn a_parsed_document_loads_its_includes() {
    let mut disk = Disk::new(PathStyle::Slashes);
    disk.add_name("/d/x.toml".to_string(), Ok("/d/x.toml".to_string()));
    disk.add_text("/d/x.toml".to_string(), Ok("[x]\no = [\"1\"]\n".to_string()));
    let document = parse_table("include = [\"x.toml\"]\n[x]\no = [\"2\", \"1\"]\n").unwrap();
    let chain = vec!["/d/a.toml".to_string()];
    match load_document(&disk, "/d/a.toml".to_string(), &document, &chain) {
        Load::Complete(loaded) => {
            assert_eq!(edges(&loaded.table, "x", "o"), ["1", "2"]);
            assert_eq!(loaded.sources, ["/d/a.toml", "/d/x.toml"]);
        }
        _ => panic!("everything is known"),
    }
}

#[test]
fn other_paths_are_left_to_the_host() {
    let base = r"C:\maps\base.toml";
    let mut disk = Disk::new(PathStyle::Host);
    disk.add_name(base.to_string(), Ok(base.to_string()));
    disk.add_text(base.to_string(), Ok("include = ['D:/a.toml', 'sub/b.toml']\n".to_string()));
    // Each name is asked for as it stands, with the file that it stands in.
    match load_config(&disk, base) {
        Load::Join(file, name) => assert_eq!((file.as_str(), name.as_str()), (base, "D:/a.toml")),
        _ => panic!("the path is not known"),
    }
    disk.add_path(base.to_string(), "D:/a.toml".to_string(), "D:/a.toml".to_string());
    assert!(matches!(load_config(&disk, base), Load::Resolve(path) if path == "D:/a.toml"));
    disk.add_name("D:/a.toml".to_string(), Ok(r"D:\a.toml".to_string()));
    assert!(matches!(load_config(&disk, base), Load::Read(file) if file == r"D:\a.toml"));
    disk.add_text(r"D:\a.toml".to_string(), Ok("[x]\no = ['1']\n".to_string()));
    assert!(matches!(load_config(&disk, base), Load::Join(_, name) if name == "sub/b.toml"));
    let b = r"C:\maps\sub\b.toml";
    disk.add_path(base.to_string(), "sub/b.toml".to_string(), b.to_string());
    disk.add_name(b.to_string(), Ok(b.to_string()));
    disk.add_text(b.to_string(), Ok("[x]\no = ['2', '1']\n".to_string()));
    match load_config(&disk, base) {
        Load::Complete(loaded) => {
            assert_eq!(edges(&loaded.table, "x", "o"), ["1", "2"]);
            assert_eq!(loaded.sources, [base, r"D:\a.toml", b]);
        }
        _ => panic!("everything is known"),
    }
}
