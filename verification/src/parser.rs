//! The common parser contract and the line generator: every format parser
//! produces a [`FlatMap`], and [`EnvGenerator`] turns one into sorted
//! `KEY=value` lines, substituting separators for dots, prepending a
//! prefix, and uppercasing.

use vstd::prelude::*;

use vstd::relations::{antisymmetric, reflexive, sorted_by, strongly_connected, total_ordering,
    transitive};
use vstd::seq_lib::{lemma_multiset_commutative, lemma_sorted_unique};

use crate::chars::{ascii_lower, ascii_upper, lemma_lex_le_antisymmetric, lemma_lex_le_total,
    lemma_lex_le_transitive, lex_le, lower_text, push_char, str_eq, str_le, upper_char,
    upper_text};
use crate::flatten::{dedup_entries, flat_entries, FlatMap, pairs_view};
use crate::value::ConfigValue;

verus! {

broadcast use {vstd::seq_lib::group_to_multiset_ensures, vstd::multiset::group_multiset_axioms};

/// The errors of this crate: a parse failure with the underlying
/// diagnostic, a format token no parser accepts, an extension no format
/// is known for, and a missing extension when no format was named.
#[derive(Debug)]
pub enum ConfigError {
    /// The document text is not valid for the chosen format; carries the
    /// source parser's diagnostic message.
    Parse(String),
    /// The requested format token matches no known parser.
    UnsupportedFormat(String),
    /// The file extension matches no known format.
    UnknownExtension(String),
    /// No format was named and the input has no extension to detect one
    /// from.
    MissingExtension,
}

/// What a parse returns, given what the format's grammar makes of the
/// text: the flattening of the document tree when the text is valid
/// (`doc` is `Some`), and a parse error exactly when it is not.
pub open spec fn parse_outcome(
    doc: Option<ConfigValue>,
    r: Result<FlatMap, ConfigError>,
) -> bool {
    match r {
        Ok(m) => {
            &&& doc matches Some(v)
            &&& m.wf()
            &&& m.entries_view() == dedup_entries(flat_entries(doc->Some_0, Seq::empty()))
        },
        Err(e) => e is Parse && doc is None,
    }
}

/// The contract every format parser satisfies: document text either
/// becomes the flattening of the tree its format's grammar gives it, or
/// a parse error exactly when the text is invalid; and the parser names
/// its format for diagnostics.
pub trait ConfigParser {
    /// The lowercase format token of this parser.
    spec fn format_name(&self) -> Seq<char>;

    /// What this parser's format makes of the text: the document tree
    /// for valid text, nothing for invalid text.
    spec fn doc_of(&self, content: Seq<char>) -> Option<ConfigValue>;

    /// Parses document text and flattens it: success exactly on valid
    /// text, and the result is the flattening of that text's tree.
    fn parse(&self, content: &str) -> (r: Result<FlatMap, ConfigError>)
        ensures
            parse_outcome(self.doc_of(content@), r),
    ;

    /// The format token, used only in diagnostics.
    fn name(&self) -> (r: &str)
        ensures
            r@ == self.format_name(),
    ;
}

/// How generated keys look: an optional prefix, a separator that replaces
/// the dots of the path, and an uppercase switch.
#[derive(Debug, Clone)]
pub struct EnvGeneratorConfig {
    /// Prepended to every formatted key, with no delimiter of its own.
    pub prefix: String,
    /// Replaces each dot of the path; `_` by default.
    pub separator: String,
    /// Whether keys are uppercased (ASCII-safe); on by default.
    pub uppercase: bool,
}

impl Default for EnvGeneratorConfig {
    /// An empty prefix, `_` as separator, uppercase on.
    fn default() -> (c: Self)
        ensures
            c.prefix@ == Seq::<char>::empty(),
            c.separator@ == seq!['_'],
            c.uppercase == true,
    {
        let sep = String::from_str("_");
        proof {
            reveal_strlit("_");
            assert(sep@ =~= seq!['_']);
        }
        EnvGeneratorConfig { prefix: String::new(), separator: sep, uppercase: true }
    }
}

/// `path` with every dot replaced by `sep`, in one left-to-right pass;
/// the substituted text is never rescanned.
pub open spec fn replace_dots(path: Seq<char>, sep: Seq<char>) -> Seq<char>
    decreases path.len(),
{
    if path.len() == 0 {
        Seq::empty()
    } else if path[0] == '.' {
        sep + replace_dots(path.drop_first(), sep)
    } else {
        seq![path[0]] + replace_dots(path.drop_first(), sep)
    }
}

/// Dot replacement distributes over concatenation.
pub proof fn lemma_replace_dots_append(a: Seq<char>, b: Seq<char>, sep: Seq<char>)
    ensures
        replace_dots(a + b, sep) == replace_dots(a, sep) + replace_dots(b, sep),
    decreases a.len(),
{
    if a.len() == 0 {
        assert(a + b =~= b);
        assert(replace_dots(a, sep) + replace_dots(b, sep) =~= replace_dots(b, sep));
    } else {
        assert((a + b)[0] == a[0]);
        assert((a + b).drop_first() =~= a.drop_first() + b);
        lemma_replace_dots_append(a.drop_first(), b, sep);
        if a[0] == '.' {
            assert(replace_dots(a + b, sep) =~= replace_dots(a, sep) + replace_dots(b, sep));
        } else {
            assert(replace_dots(a + b, sep) =~= replace_dots(a, sep) + replace_dots(b, sep));
        }
    }
}

/// Replacing dots in a dot-free text changes nothing.
pub proof fn lemma_replace_dots_nodot(s: Seq<char>, sep: Seq<char>)
    requires
        !s.contains('.'),
    ensures
        replace_dots(s, sep) == s,
    decreases s.len(),
{
    if s.len() > 0 {
        assert(s[0] != '.') by {
            if s[0] == '.' {
                assert(s.contains('.'));
            }
        }
        assert(!s.drop_first().contains('.')) by {
            if s.drop_first().contains('.') {
                let j = choose|j: int|
                    0 <= j < s.drop_first().len() && s.drop_first()[j] == '.';
                assert(s[j + 1] == '.');
            }
        }
        lemma_replace_dots_nodot(s.drop_first(), sep);
        assert(replace_dots(s, sep) =~= s);
    }
}

/// The formatted key for `path`: dots replaced by `sep`, then `prefix`
/// prepended with no delimiter, then the whole uppercased when asked.
pub open spec fn format_key_spec(
    prefix: Seq<char>,
    sep: Seq<char>,
    uppercase: bool,
    path: Seq<char>,
) -> Seq<char> {
    if uppercase {
        upper_text(prefix + replace_dots(path, sep))
    } else {
        prefix + replace_dots(path, sep)
    }
}

/// The order the generator emits entries in: by original dotted path,
/// with the stored text breaking (never occurring) ties.
pub open spec fn entry_le(a: (Seq<char>, Seq<char>), b: (Seq<char>, Seq<char>)) -> bool {
    if a.0 == b.0 {
        lex_le(a.1, b.1)
    } else {
        lex_le(a.0, b.0)
    }
}

/// [`entry_le`] as a first-class relation, for sorting.
pub open spec fn entry_le_fn() -> spec_fn((Seq<char>, Seq<char>), (Seq<char>, Seq<char>)) -> bool {
    |a: (Seq<char>, Seq<char>), b: (Seq<char>, Seq<char>)| entry_le(a, b)
}

/// [`entry_le`] orders all entries totally.
pub proof fn lemma_entry_le_total_ordering()
    ensures
        total_ordering(entry_le_fn()),
{
    let le = entry_le_fn();
    assert forall|x: (Seq<char>, Seq<char>)| #[trigger] le(x, x) by {
        lemma_lex_le_total(x.1, x.1);
    }
    assert(reflexive(le));
    assert forall|x: (Seq<char>, Seq<char>), y: (Seq<char>, Seq<char>)|
        #[trigger] le(x, y) && #[trigger] le(y, x) implies x == y by {
        if x.0 == y.0 {
            lemma_lex_le_antisymmetric(x.1, y.1);
        } else {
            lemma_lex_le_antisymmetric(x.0, y.0);
        }
    }
    assert(antisymmetric(le));
    assert forall|x: (Seq<char>, Seq<char>), y: (Seq<char>, Seq<char>), z: (Seq<char>, Seq<char>)|
        #[trigger] le(x, y) && #[trigger] le(y, z) implies le(x, z) by {
        if x.0 == y.0 && y.0 == z.0 {
            lemma_lex_le_transitive(x.1, y.1, z.1);
        } else if x.0 == y.0 {
            // the keys differ only between y and z
        } else if y.0 == z.0 {
            // the keys differ only between x and y
        } else {
            lemma_lex_le_transitive(x.0, y.0, z.0);
            if x.0 == z.0 {
                lemma_lex_le_antisymmetric(x.0, y.0);
            }
        }
    }
    assert(transitive(le));
    assert forall|x: (Seq<char>, Seq<char>), y: (Seq<char>, Seq<char>)|
        #[trigger] le(x, y) || #[trigger] le(y, x) by {
        lemma_lex_le_total(x.0, y.0);
        if x.0 == y.0 {
            lemma_lex_le_total(x.1, y.1);
        }
    }
    assert(strongly_connected(le));
}

/// One output line: the formatted key, `=`, the stored text.
pub open spec fn env_line_text(
    prefix: Seq<char>,
    sep: Seq<char>,
    uppercase: bool,
    e: (Seq<char>, Seq<char>),
) -> Seq<char> {
    format_key_spec(prefix, sep, uppercase, e.0) + seq!['='] + e.1
}

/// Every generated line, in ascending order of the original paths.
pub open spec fn generate_spec(
    prefix: Seq<char>,
    sep: Seq<char>,
    uppercase: bool,
    entries: Seq<(Seq<char>, Seq<char>)>,
) -> Seq<Seq<char>> {
    entries.sort_by(entry_le_fn()).map_values(
        |e: (Seq<char>, Seq<char>)| env_line_text(prefix, sep, uppercase, e),
    )
}

/// Inserting at position `p` adds one occurrence to the sequence's
/// multiset.
proof fn lemma_insert_multiset(s: Seq<(Seq<char>, Seq<char>)>, p: int, e: (Seq<char>, Seq<char>))
    requires
        0 <= p <= s.len(),
    ensures
        s.insert(p, e).to_multiset() == s.to_multiset().insert(e),
{
    assert(s.insert(p, e) =~= s.take(p).push(e) + s.skip(p));
    lemma_multiset_commutative(s.take(p).push(e), s.skip(p));
    assert(s =~= s.take(p) + s.skip(p));
    lemma_multiset_commutative(s.take(p), s.skip(p));
    assert(s.take(p).push(e).to_multiset() =~= s.take(p).to_multiset().insert(e));
    assert(s.take(p).to_multiset().insert(e).add(s.skip(p).to_multiset()) =~= s.take(
        p,
    ).to_multiset().add(s.skip(p).to_multiset()).insert(e));
}

/// The position where `e` belongs in the sorted vector `out`: the first
/// index whose entry does not sort at or before `e`.
fn find_insert_pos(out: &Vec<(String, String)>, e: &(String, String)) -> (p: usize)
    ensures
        p <= out@.len(),
        forall|j: int| 0 <= j < p ==> entry_le(#[trigger] pairs_view(out@)[j], (e.0@, e.1@)),
        p < out@.len() ==> !entry_le(pairs_view(out@)[p as int], (e.0@, e.1@)),
{
    let n = out.len();
    let mut p: usize = 0;
    while p < n
        invariant
            p <= n,
            n == out@.len(),
            forall|j: int| 0 <= j < p ==> entry_le(#[trigger] pairs_view(out@)[j], (e.0@, e.1@)),
        decreases n - p,
    {
        proof {
            assert(pairs_view(out@)[p as int] == (out@[p as int].0@, out@[p as int].1@));
        }
        if !entry_le_exec(&out[p], e) {
            return p;
        }
        p = p + 1;
    }
    p
}

/// The exec counterpart of [`entry_le`].
fn entry_le_exec(a: &(String, String), b: &(String, String)) -> (r: bool)
    ensures
        r == entry_le((a.0@, a.1@), (b.0@, b.1@)),
{
    if str_eq(a.0.as_str(), b.0.as_str()) {
        str_le(a.1.as_str(), b.1.as_str())
    } else {
        str_le(a.0.as_str(), b.0.as_str())
    }
}

/// Sorts a copy of the entries by [`entry_le`], by insertion into an
/// initially empty vector.
fn sorted_entries(input: &Vec<(String, String)>) -> (out: Vec<(String, String)>)
    ensures
        pairs_view(out@) == pairs_view(input@).sort_by(entry_le_fn()),
{
    proof {
        lemma_entry_le_total_ordering();
    }
    let ghost orig = pairs_view(input@);
    let n = input.len();
    let mut out: Vec<(String, String)> = Vec::new();
    let mut i: usize = 0;
    proof {
        assert(pairs_view(out@) =~= Seq::<(Seq<char>, Seq<char>)>::empty());
        assert(orig.take(0) =~= Seq::<(Seq<char>, Seq<char>)>::empty());
        assert(pairs_view(out@).to_multiset() =~= orig.take(0).to_multiset());
    }
    while i < n
        invariant
            i <= n,
            n == input@.len(),
            orig == pairs_view(input@),
            total_ordering(entry_le_fn()),
            sorted_by(pairs_view(out@), entry_le_fn()),
            pairs_view(out@).to_multiset() == orig.take(i as int).to_multiset(),
        decreases n - i,
    {
        let k = input[i].0.clone();
        let v = input[i].1.clone();
        let e = (k, v);
        let ghost ev = (e.0@, e.1@);
        proof {
            assert(ev == orig[i as int]);
        }
        let p = find_insert_pos(&out, &e);
        let ghost before = pairs_view(out@);
        out.insert(p, e);
        proof {
            let after = pairs_view(out@);
            assert(after =~= before.insert(p as int, ev));
            lemma_insert_multiset(before, p as int, ev);
            assert(orig.take(i + 1) =~= orig.take(i as int).push(orig[i as int]));
            let le = entry_le_fn();
            assert forall|a: int, b: int| 0 <= a < b < after.len() implies #[trigger] le(
                after[a],
                after[b],
            ) by {
                if b < p {
                    assert(le(before[a], before[b]));
                } else if a < p && b == p {
                    assert(entry_le(before[a], ev));
                } else if a < p && b > p {
                    assert(le(before[a], before[b - 1]));
                } else if a == p {
                    // everything after the insertion point is at least `ev`
                    if p < before.len() {
                        assert(!entry_le(before[p as int], ev));
                        assert(entry_le(ev, before[p as int])) by {
                            let x = before[p as int];
                            lemma_lex_le_total(x.0, ev.0);
                            if x.0 == ev.0 {
                                lemma_lex_le_total(x.1, ev.1);
                            }
                        }
                        assert(le(ev, before[p as int]));
                        if b - 1 > p {
                            assert(le(before[p as int], before[b - 1]));
                        }
                        assert(le(ev, before[b - 1]));
                    }
                } else {
                    assert(le(before[a - 1], before[b - 1]));
                }
            }
            assert(sorted_by(after, le));
        }
        i = i + 1;
    }
    proof {
        assert(orig.take(n as int) =~= orig);
        orig.lemma_sort_by_ensures(entry_le_fn());
        lemma_sorted_unique(pairs_view(out@), orig.sort_by(entry_le_fn()), entry_le_fn());
    }
    out
}

/// Generates environment-variable lines from flattened configuration.
pub struct EnvGenerator {
    config: EnvGeneratorConfig,
}

impl EnvGenerator {
    /// The prefix this generator prepends.
    pub closed spec fn prefix_view(&self) -> Seq<char> {
        self.config.prefix@
    }

    /// The separator this generator substitutes for dots.
    pub closed spec fn separator_view(&self) -> Seq<char> {
        self.config.separator@
    }

    /// Whether this generator uppercases keys.
    pub closed spec fn uppercase_flag(&self) -> bool {
        self.config.uppercase
    }

    /// A generator with the given configuration.
    pub fn new(config: EnvGeneratorConfig) -> (r: Self)
        ensures
            r.prefix_view() == config.prefix@,
            r.separator_view() == config.separator@,
            r.uppercase_flag() == config.uppercase,
    {
        EnvGenerator { config }
    }

    /// A generator with the given prefix and the default separator and
    /// case rule.
    pub fn with_prefix(prefix: String) -> (r: Self)
        ensures
            r.prefix_view() == prefix@,
            r.separator_view() == seq!['_'],
            r.uppercase_flag() == true,
    {
        let d = EnvGeneratorConfig::default();
        Self::new(
            EnvGeneratorConfig { prefix, separator: d.separator, uppercase: d.uppercase },
        )
    }

    /// A generator with the given separator and the default prefix and
    /// case rule.
    pub fn with_separator(separator: String) -> (r: Self)
        ensures
            r.prefix_view() == Seq::<char>::empty(),
            r.separator_view() == separator@,
            r.uppercase_flag() == true,
    {
        let d = EnvGeneratorConfig::default();
        Self::new(EnvGeneratorConfig { prefix: d.prefix, separator, uppercase: d.uppercase })
    }

    /// Formats a dotted path as an environment-variable key: separator
    /// substitution, then prefixing, then case conversion, in that order.
    pub fn format_key(&self, key: &str) -> (r: String)
        ensures
            r@ == format_key_spec(
                self.prefix_view(),
                self.separator_view(),
                self.uppercase_flag(),
                key@,
            ),
    {
        let len = key.unicode_len();
        let mut t = String::new();
        let mut i: usize = 0;
        proof {
            assert(key@.take(0) =~= Seq::<char>::empty());
        }
        while i < len
            invariant
                i <= len,
                len == key@.len(),
                t@ == replace_dots(key@.take(i as int), self.separator_view()),
            decreases len - i,
        {
            let c = key.get_char(i);
            proof {
                let sep = self.separator_view();
                let taken = key@.take(i as int);
                assert(key@.take(i + 1) =~= taken.push(c));
                assert(taken.push(c) =~= taken + seq![c]);
                lemma_replace_dots_append(taken, seq![c], sep);
                assert(seq![c].drop_first() =~= Seq::<char>::empty());
                assert(replace_dots(Seq::<char>::empty(), sep) == Seq::<char>::empty());
                if c == '.' {
                    assert(replace_dots(seq![c], sep) =~= sep);
                } else {
                    assert(replace_dots(seq![c], sep) =~= seq![c]);
                }
            }
            if c == '.' {
                t.append(self.config.separator.as_str());
            } else {
                push_char(&mut t, c);
            }
            i = i + 1;
        }
        proof {
            assert(key@.take(len as int) =~= key@);
        }
        let mut res = self.config.prefix.clone();
        res.append(t.as_str());
        if self.config.uppercase {
            ascii_upper(res.as_str())
        } else {
            res
        }
    }

    /// Formats every entry of `config_map` as a `KEY=value` line, in
    /// ascending lexicographic order of the original dotted paths.
    pub fn generate(&self, config_map: &FlatMap) -> (r: Vec<String>)
        ensures
            r@.map_values(|s: String| s@) == generate_spec(
                self.prefix_view(),
                self.separator_view(),
                self.uppercase_flag(),
                config_map.entries_view(),
            ),
    {
        let entries = config_map.entries_clone();
        let sorted = sorted_entries(&entries);
        let ghost sv = pairs_view(sorted@);
        let n = sorted.len();
        let mut lines: Vec<String> = Vec::new();
        let mut i: usize = 0;
        while i < n
            invariant
                i <= n,
                n == sorted@.len(),
                sv == pairs_view(sorted@),
                lines@.len() == i,
                forall|j: int|
                    0 <= j < i ==> (#[trigger] lines@[j])@ == env_line_text(
                        self.prefix_view(),
                        self.separator_view(),
                        self.uppercase_flag(),
                        sv[j],
                    ),
            decreases n - i,
        {
            let mut line = self.format_key(sorted[i].0.as_str());
            line.append("=");
            line.append(sorted[i].1.as_str());
            proof {
                reveal_strlit("=");
                assert("="@ =~= seq!['=']);
                assert(sv[i as int] == (sorted@[i as int].0@, sorted@[i as int].1@));
                assert(line@ =~= env_line_text(
                    self.prefix_view(),
                    self.separator_view(),
                    self.uppercase_flag(),
                    sv[i as int],
                ));
            }
            lines.push(line);
            i = i + 1;
        }
        proof {
            assert(lines@.map_values(|s: String| s@) =~= generate_spec(
                self.prefix_view(),
                self.separator_view(),
                self.uppercase_flag(),
                config_map.entries_view(),
            ));
        }
        lines
    }
}

/// Generation is deterministic: maps holding the same entries, whatever
/// insertion order built them, generate identical line sequences.
pub proof fn lemma_generate_deterministic(
    prefix: Seq<char>,
    sep: Seq<char>,
    uppercase: bool,
    e1: Seq<(Seq<char>, Seq<char>)>,
    e2: Seq<(Seq<char>, Seq<char>)>,
)
    requires
        e1.to_multiset() == e2.to_multiset(),
    ensures
        generate_spec(prefix, sep, uppercase, e1) == generate_spec(prefix, sep, uppercase, e2),
{
    lemma_entry_le_total_ordering();
    e1.lemma_sort_by_ensures(entry_le_fn());
    e2.lemma_sort_by_ensures(entry_le_fn());
    lemma_sorted_unique(e1.sort_by(entry_le_fn()), e2.sort_by(entry_le_fn()), entry_le_fn());
    assert(e1.sort_by(entry_le_fn()) == e2.sort_by(entry_le_fn()));
}

/// The generated lines follow the ascending lexicographic order of the
/// original dotted paths: line `i` comes from the `i`-th smallest path.
pub proof fn lemma_generate_sorted(
    prefix: Seq<char>,
    sep: Seq<char>,
    uppercase: bool,
    entries: Seq<(Seq<char>, Seq<char>)>,
)
    ensures
        generate_spec(prefix, sep, uppercase, entries).len() == entries.len(),
        forall|i: int, j: int|
            0 <= i < j < entries.len() ==> lex_le(
                #[trigger] entries.sort_by(entry_le_fn())[i].0,
                #[trigger] entries.sort_by(entry_le_fn())[j].0,
            ),
        forall|i: int|
            0 <= i < entries.len() ==> #[trigger] generate_spec(prefix, sep, uppercase, entries)[i]
                == env_line_text(prefix, sep, uppercase, entries.sort_by(entry_le_fn())[i]),
{
    lemma_entry_le_total_ordering();
    entries.lemma_sort_by_ensures(entry_le_fn());
    let s = entries.sort_by(entry_le_fn());
    assert(s.to_multiset().len() == entries.to_multiset().len());
    assert(s.len() == entries.len());
    assert forall|i: int, j: int| 0 <= i < j < entries.len() implies lex_le(
        #[trigger] s[i].0,
        #[trigger] s[j].0,
    ) by {
        assert(entry_le_fn()(s[i], s[j]));
        if s[i].0 == s[j].0 {
            lemma_lex_le_total(s[i].0, s[j].0);
        }
    }
}

/// Formatting a key twice changes nothing more than formatting it once,
/// provided the path already uses the separator instead of dots and no
/// prefix is configured.
pub proof fn lemma_format_key_idempotent(sep: Seq<char>, uppercase: bool, path: Seq<char>)
    requires
        !path.contains('.'),
    ensures
        format_key_spec(
            Seq::empty(),
            sep,
            uppercase,
            format_key_spec(Seq::empty(), sep, uppercase, path),
        ) == format_key_spec(Seq::empty(), sep, uppercase, path),
{
    lemma_replace_dots_nodot(path, sep);
    assert(Seq::<char>::empty() + path =~= path);
    let once = format_key_spec(Seq::empty(), sep, uppercase, path);
    if uppercase {
        assert(once == upper_text(path));
        assert(!upper_text(path).contains('.')) by {
            if upper_text(path).contains('.') {
                let j = choose|j: int|
                    0 <= j < upper_text(path).len() && upper_text(path)[j] == '.';
                assert(upper_char(path[j]) == '.');
                assert(path[j] == '.');
                assert(path.contains('.'));
            }
        }
        lemma_replace_dots_nodot(upper_text(path), sep);
        assert(Seq::<char>::empty() + upper_text(path) =~= upper_text(path));
        assert(upper_text(upper_text(path)) =~= upper_text(path)) by {
            assert(forall|j: int|
                0 <= j < path.len() ==> upper_char(#[trigger] upper_char(path[j]))
                    == upper_char(path[j]));
        }
    } else {
        assert(once == path);
    }
}

/// Detects the format token: an explicitly requested format is returned
/// verbatim; otherwise the file extension, lowercased, picks one of
/// `yaml`, `toml` or `json`.
pub fn detect_format(extension: Option<&str>, format: Option<&str>) -> (r: Result<
    String,
    ConfigError,
>)
    ensures
        match format {
            Some(f) => r matches Ok(s) && s@ == f@,
            None => match extension {
                None => r matches Err(e) && e is MissingExtension,
                Some(ext) => {
                    let low = lower_text(ext@);
                    if low == "yaml"@ || low == "yml"@ {
                        r matches Ok(s) && s@ == "yaml"@
                    } else if low == "toml"@ {
                        r matches Ok(s) && s@ == "toml"@
                    } else if low == "json"@ {
                        r matches Ok(s) && s@ == "json"@
                    } else {
                        r matches Err(e) && e matches ConfigError::UnknownExtension(x) && x@
                            == ext@
                    }
                },
            },
        },
{
    match format {
        Some(f) => Ok(f.to_owned()),
        None => match extension {
            None => Err(ConfigError::MissingExtension),
            Some(ext) => {
                let low = ascii_lower(ext);
                if str_eq(low.as_str(), "yaml") || str_eq(low.as_str(), "yml") {
                    Ok(String::from_str("yaml"))
                } else if str_eq(low.as_str(), "toml") {
                    Ok(String::from_str("toml"))
                } else if str_eq(low.as_str(), "json") {
                    Ok(String::from_str("json"))
                } else {
                    Err(ConfigError::UnknownExtension(ext.to_owned()))
                }
            },
        },
    }
}

} // verus!
