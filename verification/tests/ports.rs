use audio_connector::plan::split_disconnect;
use audio_connector::ports::{
    choose_ports, pattern_text, port_name, port_prefix, resolve_ports, Ports, RegexCache,
};

fn ports(names: &[&str]) -> Vec<String> {
    names.iter().map(|s| s.to_string()).collect()
}

fn resolve(all: &[String], spec: &str, client: Option<&str>) -> Vec<String> {
    let set = Ports::new(all.to_vec());
    let mut cache = RegexCache::new();
    let mut got = resolve_ports(&set, spec, client, &mut cache);
    got.sort();
    got
}

// ----- split_disconnect -----------------------------------------------

#[test]
fn split_disconnect_plain_key() {
    assert_eq!(split_disconnect("out_left"), (false, "out_left"));
}

#[test]
fn split_disconnect_marked_key() {
    assert_eq!(split_disconnect("disconnect:out_0"), (true, "out_0"));
}

#[test]
fn split_disconnect_keeps_regex_marker() {
    // Only the disconnect: prefix is stripped; regex: is left for resolution.
    assert_eq!(
        split_disconnect("disconnect:regex:out_.*"),
        (true, "regex:out_.*")
    );
}

#[test]
fn split_disconnect_strips_one_leading_marker() {
    assert_eq!(split_disconnect("disconnect:disconnect:x"), (true, "disconnect:x"));
    assert_eq!(split_disconnect("regex:disconnect:x"), (false, "regex:disconnect:x"));
    assert_eq!(split_disconnect("disconnect"), (false, "disconnect"));
    assert_eq!(split_disconnect("disconnect:"), (true, ""));
    assert_eq!(split_disconnect("disconnect:\u{fc}"), (true, "\u{fc}"));
}

// ----- resolve_ports: exact -------------------------------------------

#[test]
fn exact_output_prefixes_client() {
    let all = ports(&["synth:out_left", "synth:out_right"]);
    assert_eq!(resolve(&all, "out_left", Some("synth")), ["synth:out_left"]);
}

#[test]
fn exact_output_miss_is_empty() {
    let all = ports(&["synth:out_left"]);
    assert!(resolve(&all, "out_right", Some("synth")).is_empty());
}

#[test]
fn exact_destination_is_full_name() {
    let all = ports(&["mixer:in_1", "mixer:in_2"]);
    // Destination side passes client = None: the spec is already a full name.
    assert_eq!(resolve(&all, "mixer:in_1", None), ["mixer:in_1"]);
}

#[test]
fn exact_key_with_spaces_and_slashes() {
    let all = ports(&["mixer:master_out 1"]);
    assert_eq!(
        resolve(&all, "master_out 1", Some("mixer")),
        ["mixer:master_out 1"]
    );
}

// ----- resolve_ports: regex -------------------------------------------

#[test]
fn regex_output_matches_client_ports() {
    let all = ports(&["dev:capture_1", "dev:capture_2", "dev:other", "x:capture_9"]);
    assert_eq!(
        resolve(&all, "regex:capture_.*", Some("dev")),
        ["dev:capture_1", "dev:capture_2"]
    );
}

#[test]
fn regex_is_anchored_at_start() {
    // Start-anchored: a leading character before the pattern must not match.
    let all = ports(&["a:in_1", "a:xin_1"]);
    assert_eq!(resolve(&all, "regex:in_1", Some("a")), ["a:in_1"]);
}

#[test]
fn regex_is_not_anchored_at_end() {
    // A prefix pattern matches longer names (re.match-style, no trailing $).
    let all = ports(&["system:playback_1", "system:playback_2"]);
    assert_eq!(
        resolve(&all, "regex:sys", None),
        ["system:playback_1", "system:playback_2"]
    );
}

#[test]
fn regex_client_matches_optional_postfix() {
    // A `regex:` marker on the client/table-header treats the client name as
    // a pattern, so a varying JACK postfix (e.g. "synth-181") still matches.
    let all = ports(&["synth:left", "synth-181:left", "synthx:left"]);
    assert_eq!(
        resolve(&all, "left", Some("regex:synth(-[0-9]+)?")),
        ["synth-181:left", "synth:left"]
    );
}

#[test]
fn regex_client_with_regex_key() {
    // Both sides may carry the marker; each is stripped and combined.
    let all = ports(&["synth-9:left", "synth-9:right", "other:left"]);
    assert_eq!(
        resolve(&all, "regex:.*", Some("regex:synth(-[0-9]+)?")),
        ["synth-9:left", "synth-9:right"]
    );
}

#[test]
fn regex_destination_full_name() {
    let all = ports(&["effects:input_1", "effects:input_2", "effects:bypass"]);
    assert_eq!(
        resolve(&all, "regex:effects:input_.*", None),
        ["effects:input_1", "effects:input_2"]
    );
}

#[test]
fn invalid_regex_yields_no_ports() {
    let all = ports(&["a:b"]);
    // Unbalanced group is an invalid pattern; resolution returns nothing.
    assert!(resolve(&all, "regex:(", Some("a")).is_empty());
}

#[test]
fn regex_matches_keep_the_order_of_ports() {
    let all = Ports::new(ports(&["z:1", "a:1", "z:2"]));
    let mut cache = RegexCache::new();
    assert_eq!(resolve_ports(&all, "regex:z", None, &mut cache), ["z:1", "z:2"]);
    assert_eq!(resolve_ports(&all, "regex:.", None, &mut cache), ["z:1", "a:1", "z:2"]);
}

#[test]
fn invalid_regex_is_remembered_once() {
    let all = Ports::new(ports(&["a:b"]));
    let mut cache = RegexCache::new();
    assert!(resolve_ports(&all, "regex:(", Some("a"), &mut cache).is_empty());
    assert!(resolve_ports(&all, "regex:(", Some("a"), &mut cache).is_empty());
    assert_eq!(resolve_ports(&all, "regex:b", Some("a"), &mut cache), ["a:b"]);
    assert_eq!(cache.refused().len(), 1);
    assert_eq!(cache.refused()[0].pattern, "(");
    let message = &cache.refused()[0].message;
    assert!(message.contains("unclosed group"), "unexpected message: {message}");
}

#[test]
fn an_unmarked_client_is_literal() {
    let all = ports(&["a.b:x", "aXb:x"]);
    assert_eq!(resolve(&all, "regex:x", Some("a.b")), ["a.b:x"]);
    // Nor does it end in the middle of a client's name.
    let all = ports(&["dev:1", "dev2:1", "xdev:1"]);
    assert_eq!(resolve(&all, "regex:.*", Some("dev")), ["dev:1"]);
}

#[test]
fn an_unmarked_key_of_a_marked_client_is_literal() {
    let all = ports(&["s-1:a.b", "s-2:aXb", "s-3:a.b"]);
    assert_eq!(resolve(&all, "a.b", Some("regex:s-[12]")), ["s-1:a.b"]);
    let all = ports(&["s:out[0]", "s:out0", "s:(l|r)", "s:l"]);
    assert_eq!(resolve(&all, "out[0]", Some("regex:s")), ["s:out[0]"]);
    assert_eq!(resolve(&all, "(l|r)", Some("regex:.")), ["s:(l|r)"]);
}

#[test]
fn a_key_pattern_matches_ports_of_its_client_only() {
    let all = ports(&["dev:a", "dev:b", "bass:out"]);
    assert_eq!(resolve(&all, "regex:a|b", Some("dev")), ["dev:a", "dev:b"]);
    // The start of the port's short name is the start of the match.
    assert_eq!(resolve(&all, "regex:^b$", Some("dev")), ["dev:b"]);
}

#[test]
fn alternatives_stay_on_their_side() {
    let all = ports(&["one:l", "one:r", "two:l", "two:x", "onetwo:l", "r:z"]);
    assert_eq!(resolve(&all, "regex:l|r", Some("regex:one|two")), ["one:l", "one:r", "two:l"]);
    assert_eq!(resolve(&all, "l", Some("regex:one|two")), ["one:l", "two:l"]);
}

#[test]
fn only_a_leading_marker_counts() {
    let all = ports(&["a:xregex:y", "a:xy"]);
    assert_eq!(resolve(&all, "xregex:y", Some("a")), ["a:xregex:y"]);
    assert_eq!(resolve(&all, "a:xregex:y", None), ["a:xregex:y"]);
    let all = ports(&["xregex:a:1", "xa:1"]);
    assert_eq!(resolve(&all, "1", Some("xregex:a")), ["xregex:a:1"]);
}

#[test]
fn texts_of_patterns() {
    assert_eq!(pattern_text("out", Some("a")), None);
    assert_eq!(pattern_text("a:out", None), None);
    assert_eq!(pattern_text("a:regex:out", None), None);
    assert_eq!(pattern_text("regex:out", Some("a")).unwrap(), "out");
    assert_eq!(pattern_text("regex:a:out", None).unwrap(), "a:out");
    assert_eq!(pattern_text("out", Some("regex:a")).unwrap(), "(?:a):(?:out)");
    assert_eq!(pattern_text("regex:o|p", Some("regex:a|b")).unwrap(), "(?:a|b):(?:o|p)");
    // One marker is left out, and what is not marked is escaped.
    assert_eq!(pattern_text("regex:regex:x", None).unwrap(), "regex:x");
    assert_eq!(
        pattern_text("\\.+*?()|[]{}^$#&-~ a_%/", Some("regex:.")).unwrap(),
        "(?:.):(?:\\\\\\.\\+\\*\\?\\(\\)\\|\\[\\]\\{\\}\\^\\$\\#\\&\\-\\~ a_%/)"
    );
}

#[test]
fn prefixes_of_ports() {
    assert_eq!(port_prefix(Some("a.b")), "a.b:");
    assert_eq!(port_prefix(Some("regex:a.b")), "");
    assert_eq!(port_prefix(None), "");
}

#[test]
fn names_of_ports() {
    assert_eq!(port_name("out", Some("a")), "a:out");
    assert_eq!(port_name("a:out", None), "a:out");
}

#[test]
fn verdicts_choose_ports() {
    let all = ports(&["a", "b", "c"]);
    assert_eq!(choose_ports(&all, &vec![true, false, true]), ["a", "c"]);
    assert!(choose_ports(&all, &vec![]).is_empty());
    assert_eq!(choose_ports(&all, &vec![false, true]), ["b"]);
}

#[test]
fn verdicts_come_from_the_expression() {
    let mut cache = RegexCache::new();
    let all = ports(&["ab", "ba", "aba"]);
    assert_eq!(cache.verdicts("a".to_string(), "", &all).unwrap(), [true, false, true]);
    assert_eq!(cache.verdicts("b$".to_string(), "a", &all).unwrap(), [true, false, false]);
    assert!(cache.verdicts("(".to_string(), "", &all).is_none());
}
