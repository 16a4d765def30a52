//! Finding the current ports that a port spec stands for.
use vstd::hash_map::StringHashMap;
use vstd::hash_set::StringHashSet;
use vstd::prelude::*;
use vstd::string::*;

use crate::text::{after_prefix, characters, texts};

verus! {

/// A regular expression as the `regex` crate holds it.
#[verifier::external_type_specification]
#[verifier::external_body]
pub struct ExRegex(regex::Regex);

/// The texts in which a compiled regular expression finds a match.
pub uninterp spec fn matched_texts(re: regex::Regex) -> Set<Seq<char>>;

/// The texts in which the regular expression with this source finds a match, or the message with
/// which it is refused: the result of `regex::Regex::new`.
pub uninterp spec fn regex_language(source: Seq<char>) -> Result<Set<Seq<char>>, Seq<char>>;

/// Compiles a regular expression: `regex::Regex::new`.
///
/// Trusted: whether it compiles, where it matches, and the message where it does not compile
/// depend on the source alone. A source that compiles to more than the crate's size limit is
/// refused; the limit is in bytes, so for sources of that size the answer is that of the target
/// the library is built for.
#[verifier::external_body]
fn compile(source: &str) -> (compiled: Result<regex::Regex, String>)
    ensures
        match compiled {
            Ok(re) => regex_language(source@) == Ok::<Set<Seq<char>>, Seq<char>>(matched_texts(re)),
            Err(message) => regex_language(source@) == Err::<Set<Seq<char>>, Seq<char>>(message@),
        },
{
    match regex::Regex::new(source) {
        Ok(re) => Ok(re),
        Err(error) => Err(error.to_string()),
    }
}

/// Whether a regular expression finds a match in `text`: `regex::Regex::is_match`.
///
/// Trusted: the answer depends on the expression and the text alone.
#[verifier::external_body]
fn is_match(re: &regex::Regex, text: &str) -> (yes: bool)
    ensures
        yes == matched_texts(*re).contains(text@),
{
    re.is_match(text)
}

/// The characters that have a meaning of their own in a regular expression of the `regex` crate.
pub open spec fn metas() -> Seq<char> {
    seq![
        '\\', '.', '+', '*', '?', '(', ')', '|', '[', ']', '{', '}', '^', '$', '#', '&', '-', '~',
    ]
}

/// The character has a meaning of its own in a regular expression.
pub open spec fn is_meta(c: char) -> bool {
    metas().contains(c)
}

/// The regular expression for `text` itself: a backslash before each character that would have a
/// meaning of its own.
pub open spec fn escaped(text: Seq<char>) -> Seq<char> {
    text.flat_map(
        |c: char|
            if is_meta(c) {
                seq!['\\', c]
            } else {
                seq![c]
            },
    )
}

/// Whether the character has a meaning of its own in a regular expression.
fn has_meaning(c: char) -> (yes: bool)
    ensures
        yes == is_meta(c),
{
    let listed = characters("\\.+*?()|[]{}^$#&-~");
    proof {
        reveal_strlit("\\.+*?()|[]{}^$#&-~");
        assert(listed@ =~= metas());
    }
    let mut i: usize = 0;
    while i < listed.len()
        invariant
            i <= listed.len(),
            listed@ == metas(),
            forall|j: int| 0 <= j < i ==> listed@[j] != c,
        decreases listed.len() - i,
    {
        if listed[i] == c {
            assert(metas()[i as int] == c);
            return true;
        }
        i = i + 1;
    }
    false
}

/// The regular expression for `text` itself.
fn escape(text: &str) -> (result: String)
    ensures
        result@ == escaped(text@),
{
    let ghost f = |c: char|
        if is_meta(c) {
            seq!['\\', c]
        } else {
            seq![c]
        };
    let chars = characters(text);
    let mut result = String::new();
    let mut i: usize = 0;
    assert(result@ =~= text@.take(0).flat_map(f));
    while i < chars.len()
        invariant
            chars@ == text@,
            i <= chars.len(),
            f == (|c: char|
                if is_meta(c) {
                    seq!['\\', c]
                } else {
                    seq![c]
                }),
            result@ == text@.take(i as int).flat_map(f),
        decreases chars.len() - i,
    {
        let ghost before = result@;
        let c = chars[i];
        if has_meaning(c) {
            result.append("\\");
        }
        result.append(text.substring_char(i, i + 1));
        proof {
            reveal_strlit("\\");
            text@.lemma_flat_map_take_append(f, i as int);
            assert(text@.subrange(i as int, i + 1) =~= seq![c]);
            assert(result@ =~= before + f(c));
        }
        i = i + 1;
    }
    assert(text@.take(text@.len() as int) =~= text@);
    result
}

/// The name that a client is given by, if it is.
pub open spec fn client_view(client: Option<&str>) -> Option<Seq<char>> {
    match client {
        Some(name) => Some(name@),
        None => None,
    }
}

/// The text begins with the marker of a regular expression.
pub open spec fn is_marked(text: Seq<char>) -> bool {
    "regex:"@.is_prefix_of(text)
}

/// The spec, or the client that it belongs to, is marked as a regular expression.
pub open spec fn is_pattern(spec: Seq<char>, client: Option<Seq<char>>) -> bool {
    is_marked(spec) || (client matches Some(name) && is_marked(name))
}

/// What a spec or a client stands for in a regular expression: what follows the marker, or
/// literally itself where there is none.
pub open spec fn side_pattern(side: Seq<char>) -> Seq<char> {
    if is_marked(side) {
        side.skip("regex:"@.len() as int)
    } else {
        escaped(side)
    }
}

/// What the names of all ports that the spec can stand for begin with, literally: the client,
/// unless it is marked itself.
pub open spec fn literal_prefix(client: Option<Seq<char>>) -> Seq<char> {
    match client {
        Some(name) => if is_marked(name) {
            seq![]
        } else {
            name + ":"@
        },
        None => seq![],
    }
}

/// The regular expression that the spec stands for, for what follows the literal prefix of a port
/// name. A marked client is a part of it.
pub open spec fn pattern_of(spec: Seq<char>, client: Option<Seq<char>>) -> Seq<char> {
    match client {
        Some(name) => if is_marked(name) {
            "(?:"@ + side_pattern(name) + "):(?:"@ + side_pattern(spec) + ")"@
        } else {
            side_pattern(spec)
        },
        None => side_pattern(spec),
    }
}

/// The regular expression anchored at the start.
///
/// A pattern has to leave the bracket behind it standing: one in verbose mode that ends in a comment
/// does not, and is refused.
pub open spec fn anchored(pattern: Seq<char>) -> Seq<char> {
    "^(?:"@ + pattern + ")"@
}

/// The texts whose beginning the pattern matches, or the message with which it is refused.
pub open spec fn pattern_language(pattern: Seq<char>) -> Result<Set<Seq<char>>, Seq<char>> {
    regex_language(anchored(pattern))
}

/// The port name that a spec without a marker stands for.
pub open spec fn full_name(spec: Seq<char>, client: Option<Seq<char>>) -> Seq<char> {
    match client {
        Some(name) => name + ":"@ + spec,
        None => spec,
    }
}

/// The port name begins with `prefix`, and what follows is in `language`.
pub open spec fn selects(prefix: Seq<char>, language: Set<Seq<char>>, port: Seq<char>) -> bool {
    prefix.is_prefix_of(port) && language.contains(port.skip(prefix.len() as int))
}

/// Those of `ports` that begin with `prefix` and go on in `language`, in their order.
pub open spec fn matching(
    ports: Seq<Seq<char>>,
    prefix: Seq<char>,
    language: Set<Seq<char>>,
) -> Seq<Seq<char>> {
    ports.filter(|port: Seq<char>| selects(prefix, language, port))
}

/// The ports of `ports` that a spec stands for.
pub open spec fn resolved(
    ports: Seq<Seq<char>>,
    spec: Seq<char>,
    client: Option<Seq<char>>,
) -> Seq<Seq<char>> {
    if is_pattern(spec, client) {
        match pattern_language(pattern_of(spec, client)) {
            Ok(language) => matching(ports, literal_prefix(client), language),
            Err(_) => seq![],
        }
    } else if ports.contains(full_name(spec, client)) {
        seq![full_name(spec, client)]
    } else {
        seq![]
    }
}

/// What a spec or a client stands for in a regular expression.
fn pattern_side(side: &str) -> (pattern: String)
    ensures
        pattern@ == side_pattern(side@),
{
    match after_prefix(side, "regex:") {
        Some(rest) => rest.to_string(),
        None => escape(side),
    }
}

/// The regular expression that a spec stands for, if it stands for one.
pub fn pattern_text(spec: &str, client: Option<&str>) -> (pattern: Option<String>)
    ensures
        match pattern {
            Some(pattern) => is_pattern(spec@, client_view(client)) && pattern@ == pattern_of(
                spec@,
                client_view(client),
            ),
            None => !is_pattern(spec@, client_view(client)),
        },
{
    if let Some(name) = client {
        if after_prefix(name, "regex:").is_some() {
            let head = "(?:".to_string().concat(pattern_side(name).as_str());
            let tail = pattern_side(spec);
            return Some(head.concat("):(?:").concat(tail.as_str()).concat(")"));
        }
    }
    if after_prefix(spec, "regex:").is_some() {
        Some(pattern_side(spec))
    } else {
        None
    }
}

/// What the names of all ports that a spec of this client can stand for begin with.
pub fn port_prefix(client: Option<&str>) -> (prefix: String)
    ensures
        prefix@ == literal_prefix(client_view(client)),
{
    if let Some(name) = client {
        if after_prefix(name, "regex:").is_none() {
            return name.to_string().concat(":");
        }
    }
    let none = "".to_string();
    proof {
        reveal_strlit("");
    }
    assert(none@ =~= seq![]);
    none
}

/// The port name that a spec without a marker stands for.
pub fn port_name(spec: &str, client: Option<&str>) -> (name: String)
    ensures
        name@ == full_name(spec@, client_view(client)),
{
    match client {
        Some(client) => client.to_string().concat(":").concat(spec),
        None => spec.to_string(),
    }
}

/// Those of `ports` whose verdict is `true`.
pub open spec fn chosen(ports: Seq<Seq<char>>, verdicts: Seq<bool>) -> Seq<Seq<char>>
    decreases ports.len(),
{
    if ports.len() == 0 {
        seq![]
    } else {
        let before = chosen(ports.drop_last(), verdicts);
        if ports.len() <= verdicts.len() && verdicts[ports.len() - 1] {
            before.push(ports.last())
        } else {
            before
        }
    }
}

/// The ports whose verdict is `true`, in their order. A port without a verdict is left out.
pub fn choose_ports(ports: &Vec<String>, verdicts: &Vec<bool>) -> (picked: Vec<String>)
    ensures
        texts(picked@) == chosen(texts(ports@), verdicts@),
{
    let ghost all = texts(ports@);
    let mut picked: Vec<String> = Vec::new();
    let mut i: usize = 0;
    assert(all.take(0) =~= seq![]);
    assert(texts(picked@) =~= seq![]);
    while i < ports.len()
        invariant
            i <= ports.len(),
            all == texts(ports@),
            texts(picked@) == chosen(all.take(i as int), verdicts@),
        decreases ports.len() - i,
    {
        let ghost next = all.take(i + 1);
        let ghost before = texts(picked@);
        assert(next.drop_last() =~= all.take(i as int));
        assert(next.last() == ports@[i as int]@);
        if i < verdicts.len() && verdicts[i] {
            picked.push(ports[i].clone());
            assert(texts(picked@) =~= before.push(ports@[i as int]@));
        }
        i = i + 1;
    }
    assert(all.take(all.len() as int) =~= all);
    picked
}

proof fn lemma_chosen_is_matching(
    ports: Seq<Seq<char>>,
    verdicts: Seq<bool>,
    prefix: Seq<char>,
    language: Set<Seq<char>>,
)
    requires
        ports.len() <= verdicts.len(),
        forall|i: int| 0 <= i < ports.len() ==> verdicts[i] == selects(prefix, language, ports[i]),
    ensures
        chosen(ports, verdicts) == matching(ports, prefix, language),
    decreases ports.len(),
{
    reveal(Seq::filter);
    if ports.len() > 0 {
        lemma_chosen_is_matching(ports.drop_last(), verdicts, prefix, language);
    }
}

/// The names of the ports that exist at one moment.
pub struct Ports {
    all: Vec<String>,
    names: StringHashSet,
}

impl Ports {
    #[verifier::type_invariant]
    spec fn consistent(self) -> bool {
        self.names@ == texts(self.all@).to_set()
    }

    /// A snapshot of these port names.
    pub fn new(all: Vec<String>) -> (ports: Ports)
        ensures
            ports@ == texts(all@),
    {
        let ghost listed = texts(all@);
        let mut names = StringHashSet::new();
        let mut i: usize = 0;
        assert(listed.take(0).to_set() =~= Set::empty());
        while i < all.len()
            invariant
                i <= all.len(),
                listed == texts(all@),
                names@ == listed.take(i as int).to_set(),
            decreases all.len() - i,
        {
            proof {
                assert(listed.take(i + 1) =~= listed.take(i as int).push(all@[i as int]@));
                listed.take(i as int).lemma_push_to_set_commute(all@[i as int]@);
            }
            names.insert(all[i].clone());
            i = i + 1;
        }
        assert(listed.take(listed.len() as int) =~= listed);
        Ports { all, names }
    }
}

impl View for Ports {
    type V = Seq<Seq<char>>;

    closed spec fn view(&self) -> Seq<Seq<char>> {
        texts(self.all@)
    }
}

/// A pattern that does not compile, and why.
#[derive(Debug, PartialEq, Eq)]
pub struct Refusal {
    pub pattern: String,
    pub message: String,
}

/// What each of a list of refusals says: the pattern and the message.
pub open spec fn refusal_views(refusals: Seq<Refusal>) -> Seq<(Seq<char>, Seq<char>)> {
    refusals.map_values(|r: Refusal| (r.pattern@, r.message@))
}

/// `refused` lists each pattern once that does not compile, of those in `known`.
pub open spec fn lists_refused(
    refused: Seq<(Seq<char>, Seq<char>)>,
    known: Set<Seq<char>>,
) -> bool {
    &&& refused.no_duplicates()
    &&& forall|pattern: Seq<char>, message: Seq<char>| #[trigger]
        refused.contains((pattern, message)) <==> (known.contains(pattern) && pattern_language(
            pattern,
        ) == Err::<Set<Seq<char>>, Seq<char>>(message))
}

proof fn lemma_one_more(
    refused: Seq<(Seq<char>, Seq<char>)>,
    known: Set<Seq<char>>,
    pattern: Seq<char>,
)
    requires
        lists_refused(refused, known),
        !known.contains(pattern),
    ensures
        lists_refused(
            match pattern_language(pattern) {
                Ok(_) => refused,
                Err(message) => refused.push((pattern, message)),
            },
            known.insert(pattern),
        ),
{
    if let Err(message) = pattern_language(pattern) {
        let longer = refused.push((pattern, message));
        assert(!refused.contains((pattern, message)));
        assert forall|p: Seq<char>, m: Seq<char>| #[trigger]
            longer.contains((p, m)) <==> (known.insert(pattern).contains(p) && pattern_language(p)
                == Err::<Set<Seq<char>>, Seq<char>>(m)) by {
            vstd::seq_lib::lemma_seq_contains_after_push(refused, (pattern, message), (p, m));
            assert(refused.contains((p, m)) <==> (known.contains(p) && pattern_language(p) == Err::<
                Set<Seq<char>>,
                Seq<char>,
            >(m)));
        }
        assert(longer.no_duplicates()) by {
            assert forall|i: int, j: int|
                0 <= i < longer.len() && 0 <= j < longer.len() && i != j implies longer[i]
                != longer[j] by {
                if i < refused.len() {
                    assert(refused.contains(refused[i]));
                }
                if j < refused.len() {
                    assert(refused.contains(refused[j]));
                }
            }
        }
    }
}

proof fn lemma_refused_one_by_one(refused: Seq<Refusal>, known: Set<Seq<char>>)
    requires
        lists_refused(refusal_views(refused), known),
    ensures
        forall|i: int|
            0 <= i < refused.len() ==> known.contains((#[trigger] refused[i]).pattern@)
                && pattern_language(refused[i].pattern@) == Err::<Set<Seq<char>>, Seq<char>>(
                refused[i].message@,
            ),
        forall|pattern: Seq<char>| #[trigger]
            known.contains(pattern) && pattern_language(pattern) is Err ==> exists|i: int|
                0 <= i < refused.len() && (#[trigger] refused[i]).pattern@ == pattern,
        forall|i: int, j: int|
            0 <= i < j < refused.len() ==> (#[trigger] refused[i]).pattern@ != (
            #[trigger] refused[j]).pattern@,
{
    let views = refusal_views(refused);
    assert forall|i: int| 0 <= i < refused.len() implies known.contains(
        (#[trigger] refused[i]).pattern@,
    ) && pattern_language(refused[i].pattern@) == Err::<Set<Seq<char>>, Seq<char>>(
        refused[i].message@,
    ) by {
        assert(views[i] == (refused[i].pattern@, refused[i].message@));
        assert(views.contains((refused[i].pattern@, refused[i].message@)));
    }
    assert forall|i: int, j: int| 0 <= i < j < refused.len() implies (
    #[trigger] refused[i]).pattern@ != (#[trigger] refused[j]).pattern@ by {
        assert(views[i] != views[j]);
    }
    assert forall|pattern: Seq<char>| #[trigger]
        known.contains(pattern) && pattern_language(pattern) is Err implies exists|i: int|
        0 <= i < refused.len() && (#[trigger] refused[i]).pattern@ == pattern by {
        let message = pattern_language(pattern)->Err_0;
        assert(views.contains((pattern, message)));
        let i = choose|i: int| 0 <= i < views.len() && views[i] == (pattern, message);
        assert(refused[i].pattern@ == pattern);
    }
}

/// Compiled regular expressions by their patterns; a pattern that does not compile is remembered
/// too, with the reason.
pub struct RegexCache {
    compiled: StringHashMap<Option<regex::Regex>>,
    refused: Vec<Refusal>,
}

impl RegexCache {
    #[verifier::type_invariant]
    spec fn faithful(self) -> bool {
        &&& forall|pattern: Seq<char>| #[trigger]
            self.compiled@.contains_key(pattern) ==> match self.compiled@[pattern] {
                Some(re) => pattern_language(pattern) == Ok::<Set<Seq<char>>, Seq<char>>(
                    matched_texts(re),
                ),
                None => pattern_language(pattern) is Err,
            }
        &&& lists_refused(refusal_views(self.refused@), self.compiled@.dom())
    }

    /// The patterns that have been looked up.
    pub closed spec fn patterns(self) -> Set<Seq<char>> {
        self.compiled@.dom()
    }

    /// Nothing has been looked up.
    pub fn new() -> (cache: RegexCache)
        ensures
            cache.patterns() == Set::<Seq<char>>::empty(),
    {
        let refused: Vec<Refusal> = Vec::new();
        assert(refusal_views(refused@) =~= seq![]);
        RegexCache { compiled: StringHashMap::new(), refused }
    }

    /// The patterns that have been looked up and do not compile, each once and with the reason.
    pub fn refused(&self) -> (refused: &Vec<Refusal>)
        ensures
            lists_refused(refusal_views(refused@), self.patterns()),
            forall|i: int|
                0 <= i < refused@.len() ==> self.patterns().contains(
                    (#[trigger] refused@[i]).pattern@,
                ) && regex_language("^(?:"@ + refused@[i].pattern@ + ")"@) == Err::<
                    Set<Seq<char>>,
                    Seq<char>,
                >(refused@[i].message@),
            forall|pattern: Seq<char>| #[trigger]
                self.patterns().contains(pattern) && regex_language("^(?:"@ + pattern + ")"@) is Err
                    ==> exists|i: int|
                    0 <= i < refused@.len() && (#[trigger] refused@[i]).pattern@ == pattern,
            forall|i: int, j: int|
                0 <= i < j < refused@.len() ==> (#[trigger] refused@[i]).pattern@ != (
                #[trigger] refused@[j]).pattern@,
    {
        proof {
            use_type_invariant(self);
            lemma_refused_one_by_one(self.refused@, self.patterns());
        }
        &self.refused
    }

    /// Compiles a pattern, anchored at the start, unless that has been done before.
    fn look_up(&mut self, pattern: &String)
        ensures
            final(self).patterns() == old(self).patterns().insert(pattern@),
    {
        proof {
            use_type_invariant(&*self);
        }
        if self.compiled.contains_key(pattern.as_str()) {
            assert(self.patterns() =~= old(self).patterns().insert(pattern@));
            return;
        }
        let source = "^(?:".to_string().concat(pattern.as_str()).concat(")");
        let mut taken = RegexCache::new();
        std::mem::swap(&mut taken, self);
        let RegexCache { mut compiled, mut refused } = taken;
        let ghost known = compiled@.dom();
        let ghost before = refusal_views(refused@);
        let re = match compile(source.as_str()) {
            Ok(re) => Some(re),
            Err(message) => {
                refused.push(Refusal { pattern: pattern.clone(), message });
                assert(refusal_views(refused@) =~= before.push((pattern@, message@)));
                None
            },
        };
        compiled.insert(pattern.clone(), re);
        proof {
            lemma_one_more(before, known, pattern@);
            assert(compiled@.dom() =~= known.insert(pattern@));
        }
        *self = RegexCache { compiled, refused };
        assert(self.patterns() =~= old(self).patterns().insert(pattern@));
    }

    /// For each port whether its name begins with `prefix` and the pattern matches at the start of
    /// what follows; nothing where the pattern does not compile.
    pub fn verdicts(&mut self, pattern: String, prefix: &str, ports: &Vec<String>) -> (verdicts:
        Option<Vec<bool>>)
        ensures
            match verdicts {
                Some(verdicts) => pattern_language(pattern@) is Ok && verdicts@.len()
                    == ports@.len() && forall|i: int|
                    0 <= i < ports@.len() ==> #[trigger] verdicts@[i] == selects(
                        prefix@,
                        pattern_language(pattern@)->Ok_0,
                        ports@[i]@,
                    ),
                None => pattern_language(pattern@) is Err,
            },
            verdicts is Some <==> regex_language("^(?:"@ + pattern@ + ")"@) is Ok,
            verdicts is Some ==> forall|i: int|
                0 <= i < ports@.len() ==> #[trigger] verdicts->0@[i] == (prefix@.is_prefix_of(
                    ports@[i]@,
                ) && regex_language("^(?:"@ + pattern@ + ")"@)->Ok_0.contains(
                    ports@[i]@.skip(prefix@.len() as int),
                )),
            final(self).patterns() == old(self).patterns().insert(pattern@),
    {
        self.look_up(&pattern);
        proof {
            use_type_invariant(&*self);
            assert(self.patterns().contains(pattern@));
        }
        match self.compiled.get(pattern.as_str()) {
            Some(Some(re)) => {
                let mut verdicts: Vec<bool> = Vec::new();
                let mut i: usize = 0;
                while i < ports.len()
                    invariant
                        i <= ports.len(),
                        verdicts@.len() == i,
                        pattern_language(pattern@) == Ok::<Set<Seq<char>>, Seq<char>>(
                            matched_texts(*re),
                        ),
                        forall|j: int|
                            0 <= j < i ==> #[trigger] verdicts@[j] == selects(
                                prefix@,
                                pattern_language(pattern@)->Ok_0,
                                ports@[j]@,
                            ),
                    decreases ports.len() - i,
                {
                    let verdict: bool = match after_prefix(ports[i].as_str(), prefix) {
                        Some(rest) => is_match(re, rest),
                        None => false,
                    };
                    verdicts.push(verdict);
                    i = i + 1;
                }
                Some(verdicts)
            },
            _ => None,
        }
    }
}

/// The current ports that a spec stands for.
///
/// `client` is given for the output side, where the spec is the short name of one of the
/// client's ports; without it the spec is a full `client:port` name. A `regex:` marker in front of
/// either switches to regular-expression matching, anchored at the start: in front of the spec, of
/// the client's short port names or, without a client, of full port names; in front of the client,
/// of full port names. A client without the marker stands literally for itself, and so does a spec
/// without it; but under a marked client the short name of a port need only begin with such a spec.
/// A pattern that does not compile stands for no port.
pub fn resolve_ports(ports: &Ports, spec: &str, client: Option<&str>, cache: &mut RegexCache) -> (found:
    Vec<String>)
    ensures
        texts(found@) == resolved(ports@, spec@, client_view(client)),
        final(cache).patterns() == (if is_pattern(spec@, client_view(client)) {
            old(cache).patterns().insert(pattern_of(spec@, client_view(client)))
        } else {
            old(cache).patterns()
        }),
{
    proof {
        use_type_invariant(ports);
    }
    match pattern_text(spec, client) {
        Some(pattern) => {
            let prefix = port_prefix(client);
            match cache.verdicts(pattern, prefix.as_str(), &ports.all) {
                Some(verdicts) => {
                    proof {
                        lemma_chosen_is_matching(
                            ports@,
                            verdicts@,
                            prefix@,
                            pattern_language(pattern@)->Ok_0,
                        );
                    }
                    choose_ports(&ports.all, &verdicts)
                },
                None => {
                    let none: Vec<String> = Vec::new();
                    assert(texts(none@) =~= seq![]);
                    none
                },
            }
        },
        None => {
            let name = port_name(spec, client);
            let mut found: Vec<String> = Vec::new();
            assert(texts(found@) =~= seq![]);
            if ports.names.contains(name.as_str()) {
                found.push(name);
                assert(texts(found@) =~= seq![name@]);
            }
            found
        },
    }
}

} // verus!
