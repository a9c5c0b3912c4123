//! Which output section each input section goes to: a list of output
//! names, each with the glob patterns of the input section names it takes.
use vstd::prelude::*;

verus! {

/// `regex::Regex`, a compiled regular expression.
#[verifier::external_type_specification]
#[verifier::external_body]
pub struct ExRegex(regex::Regex);

/// `regex::bytes::RegexSet`, a set of compiled regular expressions that
/// are matched against a byte string at once.
#[verifier::external_type_specification]
#[verifier::external_body]
pub struct ExRegexSet(regex::bytes::RegexSet);

/// `regex::Error`, why a regular expression did not compile.
#[verifier::external_type_specification]
#[verifier::external_body]
pub struct ExRegexError(regex::Error);

/// `serde_yml::Error`, why a YAML document could not be read.
#[verifier::external_type_specification]
#[verifier::external_body]
pub struct ExYamlError(serde_yml::Error);

/// Whether `regex::Regex::new` compiles the expression `re`.
pub uninterp spec fn regex_accepts(re: Seq<char>) -> bool;

/// The expression a `regex::Regex` was compiled from (its `as_str`).
pub uninterp spec fn regex_source(r: regex::Regex) -> Seq<char>;

/// Whether the expression `re` matches somewhere in `hay`
/// (`regex::Regex::is_match`; unanchored unless the expression anchors it).
pub uninterp spec fn regex_matches(re: Seq<char>, hay: Seq<char>) -> bool;

/// Whether `regex::bytes::RegexSet::new` compiles the expressions.
pub uninterp spec fn regex_set_accepts(patterns: Seq<Seq<char>>) -> bool;

/// The expressions a `regex::bytes::RegexSet` was compiled from, in order
/// (its `patterns`).
pub uninterp spec fn regex_set_patterns(s: regex::bytes::RegexSet) -> Seq<Seq<char>>;

/// The indices of the expressions of a set that match in `hay`
/// (`regex::bytes::RegexSet::matches`), in the order its iterator yields them.
pub uninterp spec fn regex_set_matching(patterns: Seq<Seq<char>>, hay: Seq<u8>) -> Seq<usize>;

/// What `serde_yml` reads from `src` as a map from names to lists of
/// names, in the order of the document; `None` where it reports an error.
pub uninterp spec fn yaml_output_lists(src: Seq<u8>) -> Option<Seq<(Seq<char>, Seq<Seq<char>>)>>;

/// Compiles a regular expression with `regex::Regex::new`. Claims that it
/// succeeds exactly when `regex_accepts` holds and that the result keeps
/// the expression; what the expression matches is left to `regex_matches`.
#[verifier::external_body]
fn regex_new(re: &str) -> (r: Result<regex::Regex, regex::Error>)
    ensures
        r is Ok <==> regex_accepts(re@),
        r matches Ok(x) ==> regex_source(x) == re@,
{
    regex::Regex::new(re)
}

/// `regex::Regex::is_match`: claims only that the answer is the one
/// `regex_matches` names for the regex's expression and the haystack.
#[verifier::external_body]
fn regex_is_match(r: &regex::Regex, hay: &str) -> (b: bool)
    ensures
        b == regex_matches(regex_source(*r), hay@),
{
    r.is_match(hay)
}

/// The text of each string, in order.
pub open spec fn strings_view(v: Seq<String>) -> Seq<Seq<char>> {
    v.map_values(|s: String| s@)
}

/// Compiles a set of expressions with `regex::bytes::RegexSet::new`.
/// Claims that it succeeds exactly when `regex_set_accepts` holds and that
/// the set keeps the expressions in order.
#[verifier::external_body]
fn regex_set_new(patterns: &Vec<String>) -> (r: Result<regex::bytes::RegexSet, regex::Error>)
    ensures
        r is Ok <==> regex_set_accepts(strings_view(patterns@)),
        r matches Ok(s) ==> regex_set_patterns(s) == strings_view(patterns@),
{
    regex::bytes::RegexSet::new(patterns)
}

/// The indices of the expressions of `s` that match in `hay`
/// (`regex::bytes::RegexSet::matches`, collected from its iterator). Claims
/// the result that `regex_set_matching` names, and, as the crate documents,
/// that the indices ascend and are indices of the set's expressions.
#[verifier::external_body]
fn regex_set_matches(s: &regex::bytes::RegexSet, hay: &[u8]) -> (r: Vec<usize>)
    ensures
        r@ == regex_set_matching(regex_set_patterns(*s), hay@),
        forall|i: int, j: int| 0 <= i < j < r@.len() ==> r@[i] < r@[j],
        forall|i: int| 0 <= i < r@.len() ==> r@[i] < regex_set_patterns(*s).len(),
{
    s.matches(hay).iter().collect()
}

/// Reads a YAML map from names to lists of names with `serde_yml`, keeping
/// the order of the document (through `indexmap::IndexMap`). Claims that it
/// succeeds exactly when `yaml_output_lists` names a result, and that result.
#[verifier::external_body]
fn read_yaml_lists(src: &[u8]) -> (r: Result<Vec<(String, Vec<String>)>, serde_yml::Error>)
    ensures
        r is Ok <==> yaml_output_lists(src@) is Some,
        r matches Ok(v) ==> yaml_output_lists(src@) == Some(v.deep_view()),
{
    match serde_yml::from_slice::<indexmap::IndexMap<String, Vec<String>>>(src) {
        Ok(m) => Ok(m.into_iter().collect()),
        Err(e) => Err(e),
    }
}

/// The characters of a glob pattern turned into a regular expression: a
/// dot matches itself only, and `*` matches any run of characters without
/// a dot.
pub open spec fn escape_glob_char(c: char) -> Seq<char> {
    if c == '.' {
        seq!['\\', '.']
    } else if c == '*' {
        seq!['[', '^', '.', ']', '*']
    } else {
        seq![c]
    }
}

/// The regular expression, anchored at both ends, that a glob pattern
/// stands for.
pub open spec fn glob_regex(pat: Seq<char>) -> Seq<char> {
    seq!['^'] + pat.flat_map(|c: char| escape_glob_char(c)) + seq!['$']
}

#[verifier::external_body]
fn push_char(s: &mut String, c: char)
    ensures
        final(s)@ == old(s)@.push(c),
{
    s.push(c);
}

/// The regular expression for a glob pattern.
pub fn glob_to_regex(pat: &str) -> (r: String)
    ensures
        r@ == glob_regex(pat@),
{
    let mut res = String::new();
    push_char(&mut res, '^');
    let ghost f = |c: char| escape_glob_char(c);
    assert(pat@.take(0).flat_map(f) =~= Seq::<char>::empty());
    for c in it: pat.chars()
        invariant
            it.seq() == pat@,
            f == (|c: char| escape_glob_char(c)),
            res@ == seq!['^'] + pat@.take(it.index() as int).flat_map(f),
    {
        let ghost i = it.index();
        let ghost before = res@;
        assert(c == pat@[i as int]);
        if c == '.' {
            push_char(&mut res, '\\');
            push_char(&mut res, '.');
        } else if c == '*' {
            push_char(&mut res, '[');
            push_char(&mut res, '^');
            push_char(&mut res, '.');
            push_char(&mut res, ']');
            push_char(&mut res, '*');
        } else {
            push_char(&mut res, c);
        }
        assert(res@ =~= before + escape_glob_char(c));
        proof {
            assert(pat@.take(i + 1) =~= pat@.take(i as int).push(c));
            pat@.take(i as int).lemma_flat_map_push(f, c);
            assert(f(c) == escape_glob_char(c));
            assert(pat@.take(i + 1).flat_map(f) == pat@.take(i as int).flat_map(f) + escape_glob_char(c));
            assert(res@ =~= seq!['^'] + pat@.take(i + 1).flat_map(f));
        }
    }
    push_char(&mut res, '$');
    assert(pat@.take(pat@.len() as int) =~= pat@);
    res
}

/// Why a configuration could not be read.
#[derive(Clone, Copy, Debug, PartialEq, Eq, Structural)]
pub enum ConfigError {
    /// The check for the characters of a glob pattern did not compile.
    GlobCheckUnavailable,
    /// The document is not a map from output names to lists of patterns.
    Syntax,
    /// A pattern holds none of the characters of a section name pattern.
    InvalidPattern,
    /// The patterns do not make a valid set of regular expressions.
    InvalidConfiguration,
}

/// The expression that a glob pattern must match somewhere: a run of
/// letters, digits, dots, underscores, stars or dashes.
pub open spec fn section_glob() -> Seq<char> {
    seq!['[', 'a', '-', 'z', 'A', '-', 'Z', '0', '-', '9', '.', '_', '*', '-', ']', '+']
}

/// The output name of each pattern, in order: each output repeated once
/// per pattern of its list.
pub open spec fn flat_outputs(lists: Seq<(Seq<char>, Seq<Seq<char>>)>) -> Seq<Seq<char>> {
    lists.flat_map(|e: (Seq<char>, Seq<Seq<char>>)| Seq::new(e.1.len(), |_i: int| e.0))
}

/// Every pattern, in order.
pub open spec fn flat_patterns(lists: Seq<(Seq<char>, Seq<Seq<char>>)>) -> Seq<Seq<char>> {
    lists.flat_map(|e: (Seq<char>, Seq<Seq<char>>)| e.1)
}

/// The output names and the regular expressions of a configuration made
/// from `lists`: an error when the glob check does not compile, when some
/// pattern fails the glob check, or when the regular expressions do not
/// compile as a set.
pub open spec fn config_from_lists(lists: Seq<(Seq<char>, Seq<Seq<char>>)>) -> Result<
    (Seq<Seq<char>>, Seq<Seq<char>>),
    ConfigError,
> {
    if !regex_accepts(section_glob()) {
        Err(ConfigError::GlobCheckUnavailable)
    } else if exists|i: int, j: int|
        0 <= i < lists.len() && 0 <= j < lists[i].1.len() && !regex_matches(
            section_glob(),
            #[trigger] lists[i].1[j],
        ) {
        Err(ConfigError::InvalidPattern)
    } else {
        let res = flat_patterns(lists).map_values(|p: Seq<char>| glob_regex(p));
        if !regex_set_accepts(res) {
            Err(ConfigError::InvalidConfiguration)
        } else {
            Ok((flat_outputs(lists), res))
        }
    }
}

/// The output names and regular expressions of the configuration in the
/// YAML document `src`.
pub open spec fn config_from_yaml(src: Seq<u8>) -> Result<(Seq<Seq<char>>, Seq<Seq<char>>), ConfigError> {
    if !regex_accepts(section_glob()) {
        Err(ConfigError::GlobCheckUnavailable)
    } else {
        match yaml_output_lists(src) {
            None => Err(ConfigError::Syntax),
            Some(lists) => config_from_lists(lists),
        }
    }
}

/// The output section of each input section name pattern.
pub struct Config {
    outputs: Vec<String>,
    regexset: regex::bytes::RegexSet,
}

impl Config {
    /// There is one output name per expression of the set.
    #[verifier::type_invariant]
    closed spec fn one_output_per_pattern(self) -> bool {
        regex_set_patterns(self.regexset).len() == self.outputs@.len()
    }

    /// The output name of each pattern.
    pub closed spec fn outputs(&self) -> Seq<Seq<char>> {
        strings_view(self.outputs@)
    }

    /// The regular expression of each pattern.
    pub closed spec fn patterns(&self) -> Seq<Seq<char>> {
        regex_set_patterns(self.regexset)
    }

    /// The output that takes a section named `name`: the first pattern that
    /// matches it, with that pattern's output name.
    pub open spec fn match_of(&self, name: Seq<u8>) -> Option<(usize, Seq<char>)> {
        let m = regex_set_matching(self.patterns(), name);
        if m.len() == 0 {
            None
        } else {
            Some((m[0], self.outputs()[m[0] as int]))
        }
    }

    /// Reads a configuration from a YAML document that maps each output
    /// name to a list of glob patterns of input section names. The document
    /// must be a valid configuration (`try_parse` says which are).
    pub fn parse(src: &[u8]) -> (c: Config)
        requires
            config_from_yaml(src@) is Ok,
        ensures
            config_from_yaml(src@) == Ok::<(Seq<Seq<char>>, Seq<Seq<char>>), ConfigError>(
                (c.outputs(), c.patterns()),
            ),
    {
        match Self::try_parse(src) {
            Ok(c) => c,
            Err(_) => vstd::pervasive::unreached(),
        }
    }

    /// Reads a configuration from a YAML document as `parse` does, or tells
    /// why the document is no valid configuration.
    pub fn try_parse(src: &[u8]) -> (r: Result<Config, ConfigError>)
        ensures
            match r {
                Ok(c) => config_from_yaml(src@) == Ok::<(Seq<Seq<char>>, Seq<Seq<char>>), ConfigError>(
                    (c.outputs(), c.patterns()),
                ),
                Err(e) => config_from_yaml(src@) == Err::<(Seq<Seq<char>>, Seq<Seq<char>>), ConfigError>(e),
            },
    {
        let input_glob = match regex_new("[a-zA-Z0-9._*-]+") {
            Ok(g) => g,
            Err(_) => {
                proof {
                    reveal_strlit("[a-zA-Z0-9._*-]+");
                    assert("[a-zA-Z0-9._*-]+"@ =~= section_glob());
                }
                return Err(ConfigError::GlobCheckUnavailable);
            },
        };
        proof {
            reveal_strlit("[a-zA-Z0-9._*-]+");
            assert("[a-zA-Z0-9._*-]+"@ =~= section_glob());
        }
        let deser = match read_yaml_lists(src) {
            Ok(d) => d,
            Err(_) => {
                return Err(ConfigError::Syntax);
            },
        };
        Self::build(&input_glob, deser)
    }

    /// Makes a configuration from the lists of patterns of each output.
    pub fn from_lists(lists: Vec<(String, Vec<String>)>) -> (r: Result<Config, ConfigError>)
        ensures
            match r {
                Ok(c) => config_from_lists(lists.deep_view()) == Ok::<(Seq<Seq<char>>, Seq<Seq<char>>), ConfigError>(
                    (c.outputs(), c.patterns()),
                ),
                Err(e) => config_from_lists(lists.deep_view()) == Err::<(Seq<Seq<char>>, Seq<Seq<char>>), ConfigError>(e),
            },
    {
        let input_glob = match regex_new("[a-zA-Z0-9._*-]+") {
            Ok(g) => g,
            Err(_) => {
                proof {
                    reveal_strlit("[a-zA-Z0-9._*-]+");
                    assert("[a-zA-Z0-9._*-]+"@ =~= section_glob());
                }
                return Err(ConfigError::GlobCheckUnavailable);
            },
        };
        proof {
            reveal_strlit("[a-zA-Z0-9._*-]+");
            assert("[a-zA-Z0-9._*-]+"@ =~= section_glob());
        }
        Self::build(&input_glob, lists)
    }

    fn build(input_glob: &regex::Regex, lists: Vec<(String, Vec<String>)>) -> (r: Result<
        Config,
        ConfigError,
    >)
        requires
            regex_source(*input_glob) == section_glob(),
            regex_accepts(section_glob()),
        ensures
            match r {
                Ok(c) => config_from_lists(lists.deep_view()) == Ok::<(Seq<Seq<char>>, Seq<Seq<char>>), ConfigError>(
                    (c.outputs(), c.patterns()),
                ),
                Err(e) => config_from_lists(lists.deep_view()) == Err::<(Seq<Seq<char>>, Seq<Seq<char>>), ConfigError>(e),
            },
    {
        let ghost l = lists.deep_view();
        let ghost fo = |e: (Seq<char>, Seq<Seq<char>>)| Seq::new(e.1.len(), |_i: int| e.0);
        let ghost fp = |e: (Seq<char>, Seq<Seq<char>>)| e.1;
        let ghost g = |p: Seq<char>| glob_regex(p);
        let mut outputs: Vec<String> = Vec::new();
        let mut patterns: Vec<String> = Vec::new();
        let mut i: usize = 0;
        assert(l.take(0).flat_map(fo) =~= Seq::<Seq<char>>::empty());
        assert(l.take(0).flat_map(fp) =~= Seq::<Seq<char>>::empty());
        while i < lists.len()
            invariant
                l == lists.deep_view(),
                fo == (|e: (Seq<char>, Seq<Seq<char>>)| Seq::new(e.1.len(), |_i: int| e.0)),
                fp == (|e: (Seq<char>, Seq<Seq<char>>)| e.1),
                g == (|p: Seq<char>| glob_regex(p)),
                regex_source(*input_glob) == section_glob(),
                regex_accepts(section_glob()),
                outputs@.len() == patterns@.len(),
                i <= lists.len(),
                strings_view(outputs@) == l.take(i as int).flat_map(fo),
                strings_view(patterns@) == l.take(i as int).flat_map(fp).map_values(g),
                forall|a: int, b: int|
                    0 <= a < i && 0 <= b < l[a].1.len() ==> regex_matches(section_glob(), #[trigger] l[a].1[b]),
            decreases lists.len() - i,
        {
            let out: &String = &lists[i].0;
            let pats: &Vec<String> = &lists[i].1;
            let ghost o0 = strings_view(outputs@);
            let ghost p0 = strings_view(patterns@);
            assert(l[i as int] == (out@, strings_view(pats@)));
            let mut j: usize = 0;
            while j < pats.len()
                invariant
                    l == lists.deep_view(),
                    g == (|p: Seq<char>| glob_regex(p)),
                    regex_source(*input_glob) == section_glob(),
                    regex_accepts(section_glob()),
                    outputs@.len() == patterns@.len(),
                    i < lists.len(),
                    j <= pats@.len(),
                    l[i as int] == (out@, strings_view(pats@)),
                    strings_view(outputs@) == o0 + Seq::new(j as nat, |_k: int| out@),
                    strings_view(patterns@) == p0 + strings_view(pats@).take(j as int).map_values(g),
                    forall|b: int| 0 <= b < j ==> regex_matches(section_glob(), #[trigger] l[i as int].1[b]),
                decreases pats.len() - j,
            {
                let ghost ov = outputs@;
                let ghost pv = patterns@;
                outputs.push(out.clone());
                assert(strings_view(outputs@) =~= strings_view(ov).push(out@));
                if !regex_is_match(input_glob, pats[j].as_str()) {
                    assert(!regex_matches(section_glob(), l[i as int].1[j as int]));
                    return Err(ConfigError::InvalidPattern);
                }
                let re = glob_to_regex(pats[j].as_str());
                patterns.push(re);
                assert(strings_view(patterns@) =~= strings_view(pv).push(re@));
                assert(strings_view(pats@).take(j + 1) =~= strings_view(pats@).take(j as int).push(pats@[j as int]@));
                j = j + 1;
                assert(strings_view(outputs@) =~= o0 + Seq::new(j as nat, |_k: int| out@));
                assert(strings_view(patterns@) =~= p0 + strings_view(pats@).take(j as int).map_values(g));
            }
            proof {
                assert(l.take(i + 1) =~= l.take(i as int).push(l[i as int]));
                l.take(i as int).lemma_flat_map_push(fo, l[i as int]);
                l.take(i as int).lemma_flat_map_push(fp, l[i as int]);
                assert(strings_view(pats@).take(j as int) =~= strings_view(pats@));
                assert(fo(l[i as int]) =~= Seq::new(j as nat, |_k: int| out@));
                assert(l.take(i as int).flat_map(fp).map_values(g) + strings_view(pats@).map_values(g)
                    =~= (l.take(i as int).flat_map(fp) + strings_view(pats@)).map_values(g));
            }
            i = i + 1;
        }
        assert(l.take(lists.len() as int) =~= l);
        let regexset = match regex_set_new(&patterns) {
            Ok(s) => s,
            Err(_) => {
                return Err(ConfigError::InvalidConfiguration);
            },
        };
        Ok(Config { outputs, regexset })
    }

    /// The output that takes the input section named `section` (its bytes,
    /// without the nul): the index of the first pattern that matches, and
    /// that pattern's output name.
    pub fn output_match(&self, section: &[u8]) -> (r: Option<(usize, &str)>)
        ensures
            match r {
                None => self.match_of(section@) is None,
                Some((i, name)) => self.match_of(section@) == Some((i, name@)),
            },
            r is None <==> regex_set_matching(self.patterns(), section@).len() == 0,
            r matches Some((i, name)) ==> {
                &&& i < self.outputs().len()
                &&& name@ == self.outputs()[i as int]
                &&& forall|j: int|
                    0 <= j < regex_set_matching(self.patterns(), section@).len() ==> i
                        <= #[trigger] regex_set_matching(self.patterns(), section@)[j]
            },
    {
        proof {
            use_type_invariant(self);
        }
        let matches = regex_set_matches(&self.regexset, section);
        if matches.len() == 0 {
            None
        } else {
            let i = matches[0];
            Some((i, self.outputs[i].as_str()))
        }
    }

    /// The name of the output section that takes the input section named
    /// `section`, if any pattern matches it.
    pub fn output_section(&self, section: &[u8]) -> (r: Option<&str>)
        ensures
            match r {
                None => self.match_of(section@) is None,
                Some(name) => self.match_of(section@) matches Some((_, o)) && o == name@,
            },
            r is None <==> regex_set_matching(self.patterns(), section@).len() == 0,
            r is Some ==> (self.match_of(section@) matches Some((i, _)) && i < self.outputs().len()
                && forall|j: int|
                0 <= j < regex_set_matching(self.patterns(), section@).len() ==> i
                    <= #[trigger] regex_set_matching(self.patterns(), section@)[j]),
    {
        match self.output_match(section) {
            Some((_, out)) => Some(out),
            None => None,
        }
    }
}

} // verus!
