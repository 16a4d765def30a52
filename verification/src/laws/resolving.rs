//! What holds of the ports that a spec stands for.
use vstd::prelude::*;

use crate::ports::{
    anchored, chosen, escaped, full_name, is_marked, is_meta, is_pattern, literal_prefix, matching,
    pattern_language, pattern_of, regex_language, resolved, selects, side_pattern,
};

verus! {

proof fn lemma_marked(body: Seq<char>)
    ensures
        is_marked("regex:"@ + body),
        side_pattern("regex:"@ + body) == body,
{
    let marked = "regex:"@ + body;
    assert(marked.take("regex:"@.len() as int) =~= "regex:"@);
    assert(marked.skip("regex:"@.len() as int) =~= body);
}

/// A spec without the marker, of a client without it, stands for the port of the client's name, a
/// colon and the spec, where there is one, and for nothing otherwise; without a client, for the
/// port of that very name.
pub proof fn names_are_looked_up_as_they_are(
    ports: Seq<Seq<char>>,
    spec: Seq<char>,
    client: Seq<char>,
)
    requires
        !"regex:"@.is_prefix_of(spec),
        !"regex:"@.is_prefix_of(client),
    ensures
        resolved(ports, spec, Some(client)) == (if ports.contains(client + ":"@ + spec) {
            seq![client + ":"@ + spec]
        } else {
            seq![]
        }),
        resolved(ports, spec, None) == (if ports.contains(spec) {
            seq![spec]
        } else {
            seq![]
        }),
{
}

/// A destination with the marker stands for the ports that the regular expression behind it
/// matches from their start, in their order, and for nothing where it does not compile.
pub proof fn marked_destinations_match_full_names(ports: Seq<Seq<char>>, body: Seq<char>)
    ensures
        resolved(ports, "regex:"@ + body, None) == match regex_language("^(?:"@ + body + ")"@) {
            Ok(language) => ports.filter(|port: Seq<char>| language.contains(port)),
            Err(_) => seq![],
        },
{
    lemma_marked(body);
    if let Ok(language) = regex_language("^(?:"@ + body + ")"@) {
        let f = |port: Seq<char>| selects(seq![], language, port);
        let g = |port: Seq<char>| language.contains(port);
        assert forall|port: Seq<char>| #[trigger] f(port) == g(port) by {
            assert(port.skip(0) =~= port);
            assert(port.take(0) =~= seq![]);
        }
        lemma_same_filter(ports, f, g);
    }
}

proof fn lemma_same_filter(
    ports: Seq<Seq<char>>,
    f: spec_fn(Seq<char>) -> bool,
    g: spec_fn(Seq<char>) -> bool,
)
    requires
        forall|port: Seq<char>| #[trigger] f(port) == g(port),
    ensures
        ports.filter(f) == ports.filter(g),
    decreases ports.len(),
{
    reveal(Seq::filter);
    if ports.len() > 0 {
        lemma_same_filter(ports.drop_last(), f, g);
        assert(f(ports.last()) == g(ports.last()));
    }
}

/// A key with the marker, of a client without it, stands for those ports of the client whose short
/// names the regular expression behind the marker matches from their start, in their order.
pub proof fn marked_keys_match_short_names(
    ports: Seq<Seq<char>>,
    body: Seq<char>,
    client: Seq<char>,
)
    requires
        !"regex:"@.is_prefix_of(client),
    ensures
        resolved(ports, "regex:"@ + body, Some(client)) == match regex_language(
            "^(?:"@ + body + ")"@,
        ) {
            Ok(language) => ports.filter(
                |port: Seq<char>|
                    (client + ":"@).is_prefix_of(port) && language.contains(
                        port.skip((client + ":"@).len() as int),
                    ),
            ),
            Err(_) => seq![],
        },
{
    lemma_marked(body);
    if let Ok(language) = regex_language("^(?:"@ + body + ")"@) {
        let f = |port: Seq<char>| selects(client + ":"@, language, port);
        let g = |port: Seq<char>|
            (client + ":"@).is_prefix_of(port) && language.contains(
                port.skip((client + ":"@).len() as int),
            );
        lemma_same_filter(ports, f, g);
    }
}

/// A key of a client with the marker stands for the ports whose full names the client's regular
/// expression, a colon and the key's match from their start, each as a group of its own; and a key
/// without the marker goes in there literally.
pub proof fn marked_clients_match_full_names(
    ports: Seq<Seq<char>>,
    body: Seq<char>,
    key: Seq<char>,
    client: Seq<char>,
)
    requires
        !"regex:"@.is_prefix_of(key),
    ensures
        resolved(ports, "regex:"@ + body, Some("regex:"@ + client)) == match regex_language(
            "^(?:"@ + ("(?:"@ + client + "):(?:"@ + body + ")"@) + ")"@,
        ) {
            Ok(language) => ports.filter(|port: Seq<char>| language.contains(port)),
            Err(_) => seq![],
        },
        resolved(ports, key, Some("regex:"@ + client)) == match regex_language(
            "^(?:"@ + ("(?:"@ + client + "):(?:"@ + escaped(key) + ")"@) + ")"@,
        ) {
            Ok(language) => ports.filter(|port: Seq<char>| language.contains(port)),
            Err(_) => seq![],
        },
{
    lemma_marked(body);
    lemma_marked(client);
    let first = regex_language("^(?:"@ + ("(?:"@ + client + "):(?:"@ + body + ")"@) + ")"@);
    let second = regex_language("^(?:"@ + ("(?:"@ + client + "):(?:"@ + escaped(key) + ")"@) + ")"@);
    if let Ok(language) = first {
        lemma_whole_names(ports, language);
    }
    if let Ok(language) = second {
        lemma_whole_names(ports, language);
    }
}

proof fn lemma_whole_names(ports: Seq<Seq<char>>, language: Set<Seq<char>>)
    ensures
        matching(ports, seq![], language) == ports.filter(
            |port: Seq<char>| language.contains(port),
        ),
{
    let f = |port: Seq<char>| selects(seq![], language, port);
    let g = |port: Seq<char>| language.contains(port);
    assert forall|port: Seq<char>| #[trigger] f(port) == g(port) by {
        assert(port.skip(0) =~= port);
        assert(port.take(0) =~= seq![]);
    }
    lemma_same_filter(ports, f, g);
}

/// Escaping goes character by character: it puts a backslash before each of the characters that
/// have a meaning of their own in a regular expression, and keeps every other one as it is.
pub proof fn escaping_goes_character_by_character(text: Seq<char>, c: char)
    ensures
        escaped(Seq::<char>::empty()) == Seq::<char>::empty(),
        escaped(text.push(c)) == escaped(text) + (if c == '\\' || c == '.' || c == '+' || c == '*' || c
            == '?' || c == '(' || c == ')' || c == '|' || c == '[' || c == ']' || c == '{' || c == '}'
            || c == '^' || c == '$' || c == '#' || c == '&' || c == '-' || c == '~' {
            seq!['\\', c]
        } else {
            seq![c]
        }),
{
    let f = |c: char|
        if is_meta(c) {
            seq!['\\', c]
        } else {
            seq![c]
        };
    assert(Seq::<char>::empty().flat_map(f) =~= Seq::<char>::empty());
    text.lemma_flat_map_push(f, c);
    lemma_metas(c);
}

proof fn lemma_metas(c: char)
    ensures
        is_meta(c) <==> (c == '\\' || c == '.' || c == '+' || c == '*' || c == '?' || c == '(' || c
            == ')' || c == '|' || c == '[' || c == ']' || c == '{' || c == '}' || c == '^' || c == '$'
            || c == '#' || c == '&' || c == '-' || c == '~'),
{
    let all = seq![
        '\\', '.', '+', '*', '?', '(', ')', '|', '[', ']', '{', '}', '^', '$', '#', '&', '-', '~',
    ];
    assert(all[0] == '\\' && all[1] == '.' && all[2] == '+' && all[3] == '*' && all[4] == '?' && all[5]
        == '(' && all[6] == ')' && all[7] == '|' && all[8] == '[' && all[9] == ']' && all[10] == '{'
        && all[11] == '}' && all[12] == '^' && all[13] == '$' && all[14] == '#' && all[15] == '&'
        && all[16] == '-' && all[17] == '~');
}

/// The regular expression of a spec: what stands behind its marker; and of a client with the
/// marker, the client's and the spec's as groups of their own with a colon between them, where one
/// without the marker is escaped. It is compiled anchored at the start.
pub proof fn patterns_are_made_of_both_sides(
    body: Seq<char>,
    key: Seq<char>,
    marked: Seq<char>,
    unmarked: Seq<char>,
)
    requires
        !"regex:"@.is_prefix_of(key),
        !"regex:"@.is_prefix_of(unmarked),
    ensures
        is_pattern("regex:"@ + body, None) && pattern_of("regex:"@ + body, None) == body,
        is_pattern("regex:"@ + body, Some(unmarked)) && pattern_of(
            "regex:"@ + body,
            Some(unmarked),
        ) == body,
        is_pattern("regex:"@ + body, Some("regex:"@ + marked)) && pattern_of(
            "regex:"@ + body,
            Some("regex:"@ + marked),
        ) == "(?:"@ + marked + "):(?:"@ + body + ")"@,
        is_pattern(key, Some("regex:"@ + marked)) && pattern_of(key, Some("regex:"@ + marked))
            == "(?:"@ + marked + "):(?:"@ + escaped(key) + ")"@,
        !is_pattern(key, None),
        !is_pattern(key, Some(unmarked)),
        pattern_language(body) == regex_language("^(?:"@ + body + ")"@),
        anchored(body) == "^(?:"@ + body + ")"@,
{
    lemma_marked(body);
    lemma_marked(marked);
}

/// What the names of a client's ports begin with: the client and a colon, unless the client is
/// marked or there is none; and the full name of a port: that and the short name.
pub proof fn ports_are_named_after_their_client(spec: Seq<char>, client: Seq<char>)
    ensures
        literal_prefix(None).len() == 0,
        literal_prefix(Some(client)) == (if "regex:"@.is_prefix_of(client) {
            Seq::<char>::empty()
        } else {
            client + ":"@
        }),
        full_name(spec, None) == spec,
        full_name(spec, Some(client)) == client + ":"@ + spec,
{
}

/// A port is chosen just where its verdict says so, and the chosen ones stay in their order.
pub proof fn choosing_goes_port_by_port(ports: Seq<Seq<char>>, port: Seq<char>, verdicts: Seq<bool>)
    ensures
        chosen(Seq::<Seq<char>>::empty(), verdicts) == Seq::<Seq<char>>::empty(),
        chosen(ports.push(port), verdicts) == (if ports.len() < verdicts.len()
            && verdicts[ports.len() as int] {
            chosen(ports, verdicts).push(port)
        } else {
            chosen(ports, verdicts)
        }),
{
    assert(ports.push(port).drop_last() =~= ports);
}

} // verus!
