use std::collections::BTreeSet;

use audio_connector::config::Loaded;
use audio_connector::document::parse_table;
use audio_connector::pass::{apply, Action, Pass, Reply};
use audio_connector::plan::{plan_steps, Notice, Step};
use audio_connector::ports::{Ports, RegexCache};
use audio_connector::reconciler::{sources_unchanged, LoadEvent, LoadStep, Reconciler};

fn names(list: &[&str]) -> Vec<String> {
    list.iter().map(|s| s.to_string()).collect()
}

fn connect(source: &str, dest: &str) -> Step {
    Step::Connect { source: source.to_string(), dest: dest.to_string() }
}

fn disconnect(source: &str, dest: &str) -> Step {
    Step::Disconnect { source: source.to_string(), dest: dest.to_string() }
}

/// A graph of edges that grants every request but those for one edge.
struct Graph {
    edges: BTreeSet<(String, String)>,
    refused: Option<(String, String)>,
    asked: Vec<String>,
}

impl Graph {
    fn new(edges: &[(&str, &str)]) -> Graph {
        Graph {
            edges: edges.iter().map(|(s, d)| (s.to_string(), d.to_string())).collect(),
            refused: None,
            asked: Vec::new(),
        }
    }

    fn targets(&self, source: &str) -> Vec<String> {
        self.edges.iter().filter(|(s, _)| s == source).map(|(_, d)| d.clone()).collect()
    }

    fn run(&mut self, pass: &mut Pass) -> (bool, Vec<Notice>) {
        let mut notices = Vec::new();
        loop {
            match pass.advance() {
                Action::ListConnections(source) => {
                    self.asked.push(source.clone());
                    pass.answer(Reply::Connections(self.targets(&source)));
                }
                Action::Connect(source, dest) => {
                    let edge = (source, dest);
                    if self.refused.as_ref() == Some(&edge) {
                        pass.answer(Reply::Failed);
                    } else {
                        assert!(self.edges.insert(edge), "the edge was there already");
                        pass.answer(Reply::Succeeded);
                    }
                }
                Action::Disconnect(source, dest) => {
                    let edge = (source, dest);
                    if self.refused.as_ref() == Some(&edge) {
                        pass.answer(Reply::Failed);
                    } else {
                        assert!(self.edges.remove(&edge), "the edge was not there");
                        pass.answer(Reply::Succeeded);
                    }
                }
                Action::Note(notice) => notices.push(notice),
                Action::Done(changed) => return (changed, notices),
            }
        }
    }

    fn has(&self, source: &str, dest: &str) -> bool {
        self.edges.contains(&(source.to_string(), dest.to_string()))
    }
}

const MAP: &str = r#"
    [synth]
    out_left = ["mixer:in_1", "recorder:in_1"]
    [player]
    "disconnect:regex:out_.*" = ["regex:monitor:.*"]
"#;

fn all_ports() -> Vec<String> {
    names(&[
        "synth:out_left",
        "mixer:in_1",
        "player:out_0",
        "player:out_1",
        "monitor:a",
        "monitor:b",
    ])
}

#[test]
fn steps_of_a_map() {
    let config = parse_table(MAP).unwrap();
    let mut cache = RegexCache::new();
    let steps = plan_steps(&Ports::new(all_ports()), &config, &mut cache);
    // Clients come in the order of their names.
    assert_eq!(
        steps,
        [
            disconnect("player:out_0", "monitor:a"),
            disconnect("player:out_0", "monitor:b"),
            disconnect("player:out_1", "monitor:a"),
            disconnect("player:out_1", "monitor:b"),
            connect("synth:out_left", "mixer:in_1"),
            Step::Note(Notice::NoDestination("recorder:in_1".to_string())),
        ]
    );
}

#[test]
fn notices_of_a_map() {
    let config = parse_table(
        "a = 1\n[b]\nx = 2\n\"disconnect:y\" = 3\n[c]\ngone = [\"d:in\"]\n[d]\nout = [4, \"e:in\"]\n",
    )
    .unwrap();
    let mut cache = RegexCache::new();
    let steps = plan_steps(&Ports::new(names(&["d:out"])), &config, &mut cache);
    assert_eq!(
        steps,
        [
            Step::Note(Notice::NotTable("a".to_string())),
            Step::Note(Notice::NotArray("b".to_string(), "y".to_string())),
            Step::Note(Notice::NotArray("b".to_string(), "x".to_string())),
            Step::Note(Notice::NoSource("c".to_string(), "gone".to_string())),
            Step::Note(Notice::NotText("d:out".to_string())),
            Step::Note(Notice::NoDestination("e:in".to_string())),
        ]
    );
    assert_eq!(Notice::NotTable("a".to_string()).copy(), Notice::NotTable("a".to_string()));
}

#[test]
fn keys_come_in_order() {
    let config = parse_table("[c]\nb = []\n\"a b\" = []\nab = []\na = []\n").unwrap();
    let mut cache = RegexCache::new();
    let steps = plan_steps(&Ports::new(Vec::new()), &config, &mut cache);
    let keys: Vec<String> = steps
        .into_iter()
        .map(|s| match s {
            Step::Note(Notice::NoSource(_, key)) => key,
            _ => panic!("unexpected step"),
        })
        .collect();
    assert_eq!(keys, ["a", "a b", "ab", "b"]);
}

#[test]
fn a_pass_makes_and_removes_declared_edges_only() {
    let config = parse_table(MAP).unwrap();
    let mut cache = RegexCache::new();
    let ports = Ports::new(all_ports());
    let mut graph = Graph::new(&[
        ("player:out_0", "monitor:a"),
        ("player:out_0", "mixer:in_1"),
        ("byhand:out", "mixer:in_1"),
    ]);
    let (changed, notices) = graph.run(&mut apply(&ports, &config, &mut cache));
    assert!(changed);
    assert_eq!(notices, [Notice::NoDestination("recorder:in_1".to_string())]);
    assert!(graph.has("synth:out_left", "mixer:in_1"));
    assert!(!graph.has("player:out_0", "monitor:a"));
    assert!(graph.has("player:out_0", "mixer:in_1"));
    assert!(graph.has("byhand:out", "mixer:in_1"));
    assert_eq!(graph.edges.len(), 3);
    // The connections of each source are asked for once.
    assert_eq!(graph.asked, ["player:out_0", "player:out_1", "synth:out_left"]);
    // The next pass finds nothing to do.
    let before = graph.edges.clone();
    let (changed, _) = graph.run(&mut apply(&ports, &config, &mut cache));
    assert!(!changed);
    // It asks for nothing but the connections that there are.
    let mut pass = apply(&ports, &config, &mut cache);
    loop {
        match pass.advance() {
            Action::ListConnections(source) => pass.answer(Reply::Connections(graph.targets(&source))),
            Action::Connect(source, dest) => panic!("asked to connect {source} to {dest}"),
            Action::Disconnect(source, dest) => panic!("asked to disconnect {source} from {dest}"),
            Action::Note(_) => {}
            Action::Done(changed) => {
                assert!(!changed);
                break;
            }
        }
    }
    assert_eq!(graph.edges, before);
}

#[test]
fn a_refused_request_changes_nothing() {
    let mut graph = Graph::new(&[]);
    graph.refused = Some(("a:o".to_string(), "b:i".to_string()));
    let mut pass = Pass::new(vec![connect("a:o", "b:i")]);
    assert_eq!(graph.run(&mut pass).0, false);
    let mut graph = Graph::new(&[("a:o", "b:i")]);
    graph.refused = Some(("a:o".to_string(), "b:i".to_string()));
    let mut pass = Pass::new(vec![disconnect("a:o", "b:i")]);
    assert_eq!(graph.run(&mut pass).0, false);
    assert!(graph.has("a:o", "b:i"));
}

#[test]
fn an_unknown_source_counts_as_unconnected() {
    let mut pass = Pass::new(vec![disconnect("a:o", "b:i"), connect("a:o", "b:i")]);
    assert_eq!(pass.advance(), Action::ListConnections("a:o".to_string()));
    pass.answer(Reply::Failed);
    assert_eq!(pass.advance(), Action::Connect("a:o".to_string(), "b:i".to_string()));
    pass.answer(Reply::Succeeded);
    assert_eq!(pass.advance(), Action::Done(true));
}

#[test]
fn what_a_pass_did_counts_in_the_rest_of_it() {
    let mut graph = Graph::new(&[]);
    let mut pass = Pass::new(vec![
        connect("a:o", "b:i"),
        connect("a:o", "b:i"),
        disconnect("a:o", "b:i"),
        disconnect("a:o", "b:i"),
    ]);
    assert_eq!(graph.run(&mut pass).0, true);
    assert!(!graph.has("a:o", "b:i"));
    assert_eq!(graph.asked, ["a:o"]);
}

// ----- the reconciler --------------------------------------------------

fn loaded(text: &str, sources: &[&str]) -> Loaded {
    Loaded { table: parse_table(text).unwrap(), sources: names(sources) }
}

#[test]
fn a_new_reconciler_has_nothing_to_apply() {
    let mut r = Reconciler::new("/m.toml".to_string());
    assert!(r.sources().is_empty());
    assert!(r.reconcile(all_ports()).is_none());
    match r.ensure_loaded(LoadEvent::Stamps(Vec::new())) {
        LoadStep::Load(path) => assert_eq!(path, "/m.toml"),
        LoadStep::Ready(_) => panic!("nothing is loaded"),
    }
    assert!(matches!(r.ensure_loaded(LoadEvent::Failed), LoadStep::Ready(false)));
}

#[test]
fn a_config_is_loaded_again_only_when_a_file_changes() {
    let mut r = Reconciler::new("/m.toml".to_string());
    let event = LoadEvent::Loaded(loaded(MAP, &["/m.toml", "/n.toml"]), vec![Some(10), Some(20)]);
    assert!(matches!(r.ensure_loaded(event), LoadStep::Ready(true)));
    assert_eq!(r.sources(), ["/m.toml", "/n.toml"]);
    assert!(matches!(
        r.ensure_loaded(LoadEvent::Stamps(vec![Some(10), Some(20)])),
        LoadStep::Ready(true)
    ));
    assert!(matches!(
        r.ensure_loaded(LoadEvent::Stamps(vec![Some(10), Some(21)])),
        LoadStep::Load(_)
    ));
    assert!(matches!(
        r.ensure_loaded(LoadEvent::Stamps(vec![Some(10), None])),
        LoadStep::Load(_)
    ));
}

#[test]
fn a_failed_reload_keeps_the_last_good_config() {
    let mut r = Reconciler::new("/m.toml".to_string());
    r.ensure_loaded(LoadEvent::Loaded(loaded(MAP, &["/m.toml"]), vec![Some(1)]));
    assert!(matches!(r.ensure_loaded(LoadEvent::Stamps(vec![Some(2)])), LoadStep::Load(_)));
    assert!(matches!(r.ensure_loaded(LoadEvent::Failed), LoadStep::Ready(true)));
    let mut graph = Graph::new(&[]);
    let mut pass = r.reconcile(all_ports()).unwrap();
    assert!(graph.run(&mut pass).0);
    assert!(graph.has("synth:out_left", "mixer:in_1"));
    // The file still differs from what was loaded.
    assert!(matches!(r.ensure_loaded(LoadEvent::Stamps(vec![Some(2)])), LoadStep::Load(_)));
}

#[test]
fn refused_patterns_are_forgotten_on_reload() {
    let mut r = Reconciler::new("/m.toml".to_string());
    let bad = "[a]\n\"regex:(\" = [\"b:i\"]\n";
    r.ensure_loaded(LoadEvent::Loaded(loaded(bad, &["/m.toml"]), vec![Some(1)]));
    r.reconcile(all_ports());
    r.reconcile(all_ports());
    assert_eq!(r.refused().len(), 1);
    assert_eq!(r.refused()[0].pattern, "(");
    assert!(r.refused()[0].message.contains("unclosed group"));
    r.ensure_loaded(LoadEvent::Loaded(loaded(MAP, &["/m.toml"]), vec![Some(2)]));
    assert!(r.refused().is_empty());
}

#[test]
fn stamps_are_compared_one_by_one() {
    let recorded = vec![("/a".to_string(), Some(1)), ("/b".to_string(), None)];
    assert!(!sources_unchanged(&recorded, &vec![Some(1), None]));
    assert!(!sources_unchanged(&recorded, &vec![Some(1), Some(1)]));
    assert!(!sources_unchanged(&recorded, &vec![Some(1)]));
    let recorded = vec![("/a".to_string(), Some(-1)), ("/b".to_string(), Some(2))];
    assert!(sources_unchanged(&recorded, &vec![Some(-1), Some(2)]));
    assert!(!sources_unchanged(&recorded, &vec![Some(2), Some(-1)]));
    assert!(sources_unchanged(&Vec::new(), &Vec::new()));
}
