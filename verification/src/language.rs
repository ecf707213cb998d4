//! Regional language codes: the bundled language data, code normalisation
//! (`regional_language`) and display names (`language_name`).
use crate::text::{
    ascii_lower, ascii_lower_char, ascii_upper, ascii_upper_char, chars_of, is_ascii_alpha, keys_distinct, list_contains,
    lookup, lower_case, same, split_dash, split_dash_nonempty, split_on_dash, string_of, table_get,
    to_lower, to_upper, upper_case, view_strings,
};
use vstd::prelude::*;

verus! {

/// The bundled CLDR-derived language data.  Each table lists its entries;
/// a key's value is that of its first entry.
pub struct LanguageData {
    /// Default territory of a language (or of a language-script prefix).
    pub defaults: Vec<(String, String)>,
    /// Canonical language subtag of a lower-case language subtag.
    pub languages: Vec<(String, String)>,
    /// Canonical territory subtag of an upper-case territory subtag.
    pub territories: Vec<(String, String)>,
    /// The known script subtags, in title case.
    pub scripts: Vec<String>,
    /// English name of a language subtag.
    pub names: Vec<(String, String)>,
    /// English name of a territory subtag.
    pub territory_names: Vec<(String, String)>,
    /// English name of a script subtag.
    pub script_names: Vec<(String, String)>,
}

/// The tables hold each key once and the scripts each script once, as the
/// maps and the set they are read from do; `lookup` then reads each table as
/// a map (see `lookup_reads_a_map`).
pub open spec fn well_keyed(data: LanguageData) -> bool {
    &&& keys_distinct(data.defaults@)
    &&& keys_distinct(data.languages@)
    &&& keys_distinct(data.territories@)
    &&& keys_distinct(data.names@)
    &&& keys_distinct(data.territory_names@)
    &&& keys_distinct(data.script_names@)
    &&& view_strings(data.scripts@).no_duplicates()
}

/// A four-letter ASCII subtag: a script.
pub open spec fn is_script_tag(part: Seq<char>) -> bool {
    part.len() == 4 && forall|i: int| 0 <= i < 4 ==> is_ascii_alpha(#[trigger] part[i])
}

/// A script subtag in title case: first letter upper, the rest lower.
pub open spec fn script_form(part: Seq<char>) -> Seq<char> {
    seq![ascii_upper(part[0])] + part.drop_first().map_values(|c: char| ascii_lower(c))
}

/// The script and territory gathered so far from the subtags after the
/// language, or `None` once a subtag was refused.
pub type Qualifiers = Option<(Option<Seq<char>>, Option<Seq<char>>)>;

pub open spec fn qualifier_step(data: LanguageData, state: Qualifiers, part: Seq<char>) -> Qualifiers {
    match state {
        None => None,
        Some((script, territory)) => {
            if is_script_tag(part) && script is None {
                let n = script_form(part);
                if view_strings(data.scripts@).contains(n) {
                    Some((Some(n), territory))
                } else {
                    None
                }
            } else if territory is None {
                match lookup(data.territories@, upper_case(part)) {
                    Some(t) => Some((script, Some(t))),
                    None => None,
                }
            } else {
                None
            }
        },
    }
}

pub open spec fn qualifiers(data: LanguageData, parts: Seq<Seq<char>>) -> Qualifiers
    decreases parts.len(),
{
    if parts.len() == 0 {
        Some((None, None))
    } else {
        qualifier_step(data, qualifiers(data, parts.drop_last()), parts.last())
    }
}

/// The regional form `language[-Script]-TERRITORY` of a language code: the
/// language subtag canonicalised, an optional script subtag checked and
/// title-cased, the territory given explicitly or the CLDR default of the
/// language-script prefix or else of the language.  `multi` stays itself and
/// `la` is Latin-American Spanish.
pub open spec fn regional(data: LanguageData, code: Seq<char>) -> Option<Seq<char>> {
    if code == "multi"@ {
        Some(code)
    } else if code == "la"@ {
        Some("es-419"@)
    } else {
        let parts = split_dash(code);
        match lookup(data.languages@, lower_case(parts[0])) {
            None => None,
            Some(base) => match qualifiers(data, parts.drop_first()) {
                None => None,
                Some((script, territory)) => {
                    let prefix = match script {
                        Some(s) => base + "-"@ + s,
                        None => base,
                    };
                    let t = match territory {
                        Some(t) => Some(t),
                        None => match lookup(data.defaults@, prefix) {
                            Some(d) => Some(d),
                            None => lookup(data.defaults@, base),
                        },
                    };
                    match t {
                        Some(t) => Some(prefix + "-"@ + t),
                        None => None,
                    }
                },
            },
        }
    }
}

pub open spec fn view_opt_string(s: Option<String>) -> Option<Seq<char>> {
    match s {
        Some(s) => Some(s@),
        None => None,
    }
}

proof fn qualifiers_refused(data: LanguageData, parts: Seq<Seq<char>>, k: int)
    requires
        0 <= k <= parts.len(),
        qualifiers(data, parts.subrange(0, k)) is None,
    ensures
        qualifiers(data, parts) is None,
    decreases parts.len() - k,
{
    if k < parts.len() {
        assert(parts.subrange(0, k + 1).drop_last() =~= parts.subrange(0, k));
        qualifiers_refused(data, parts, k + 1);
    } else {
        assert(parts.subrange(0, k) =~= parts);
    }
}

/// The title-cased form of a four-letter script subtag.
fn title_case(part: &str) -> (r: String)
    requires
        is_script_tag(part@),
    ensures
        r@ == script_form(part@),
{
    let cs = chars_of(part);
    let mut out: Vec<char> = Vec::new();
    out.push(ascii_upper_char(cs[0]));
    let mut i: usize = 1;
    while i < cs.len()
        invariant
            1 <= i <= cs@.len(),
            cs@ == part@,
            out@ == seq![ascii_upper(cs@[0])] + cs@.subrange(1, i as int).map_values(
                |c: char| ascii_lower(c),
            ),
        decreases cs@.len() - i,
    {
        out.push(ascii_lower_char(cs[i]));
        assert(cs@.subrange(1, i + 1) =~= cs@.subrange(1, i as int).push(cs@[i as int]));
        i = i + 1;
    }
    assert(cs@.subrange(1, cs@.len() as int) =~= cs@.drop_first());
    assert(out@ =~= script_form(part@));
    string_of(out.as_slice())
}

/// Whether `part` is four ASCII letters.
fn is_script_subtag(part: &str) -> (r: bool)
    ensures
        r == is_script_tag(part@),
{
    let cs = chars_of(part);
    if cs.len() != 4 {
        return false;
    }
    let mut i: usize = 0;
    while i < 4
        invariant
            i <= 4,
            cs@ == part@,
            cs@.len() == 4,
            forall|k: int| 0 <= k < i ==> is_ascii_alpha(#[trigger] cs@[k]),
        decreases 4 - i,
    {
        let c = cs[i];
        if !(('a' <= c && c <= 'z') || ('A' <= c && c <= 'Z')) {
            return false;
        }
        i = i + 1;
    }
    true
}

/// The regional form of a language code (see `regional`), or `None` when
/// the code is not a known language or carries an unknown or repeated
/// script or territory subtag.
pub fn regional_language(code: &str, data: &LanguageData) -> (r: Option<String>)
    ensures
        view_opt_string(r) == regional(*data, code@),
{
    if same(code, "multi") {
        return Some(code.to_owned());
    }
    if same(code, "la") {
        return Some("es-419".to_owned());
    }
    let parts = split_on_dash(code);
    let ghost ps = view_strings(parts@);
    proof {
        split_dash_nonempty(code@);
    }
    assert(ps[0] == parts@[0]@);
    let lower = to_lower(parts[0].as_str());
    let base = match table_get(&data.languages, lower.as_str()) {
        Some(b) => b,
        None => return None,
    };
    let mut script: Option<String> = None;
    let mut territory: Option<String> = None;
    let mut i: usize = 1;
    assert(ps.drop_first().subrange(0, 0) =~= Seq::<Seq<char>>::empty());
    while i < parts.len()
        invariant
            1 <= i <= parts@.len(),
            ps == view_strings(parts@),
            ps == split_dash(code@),
            code@ != "multi"@,
            code@ != "la"@,
            lookup(data.languages@, lower_case(ps[0])) == Some(base@),
            qualifiers(*data, ps.drop_first().subrange(0, i - 1)) == Some(
                (view_opt_string(script), view_opt_string(territory)),
            ),
        decreases parts@.len() - i,
    {
        let ghost done = ps.drop_first().subrange(0, i - 1);
        let ghost next = ps.drop_first().subrange(0, i as int);
        assert(next.drop_last() =~= done);
        assert(next.last() == parts@[i as int]@);
        let part = parts[i].as_str();
        if is_script_subtag(part) && script.is_none() {
            let normalized = title_case(part);
            if !list_contains(data.scripts.as_slice(), normalized.as_str()) {
                proof {
                    assert(qualifiers(*data, next) == qualifier_step(*data, qualifiers(*data, done), next.last()));
                    assert(qualifiers(*data, next) is None);
                    qualifiers_refused(*data, ps.drop_first(), i as int);
                }
                return None;
            }
            script = Some(normalized);
        } else if territory.is_none() {
            let upper = to_upper(part);
            match table_get(&data.territories, upper.as_str()) {
                Some(t) => {
                    territory = Some(t.clone());
                },
                None => {
                    proof {
                        assert(qualifiers(*data, next) == qualifier_step(*data, qualifiers(*data, done), next.last()));
                        assert(qualifiers(*data, next) is None);
                        qualifiers_refused(*data, ps.drop_first(), i as int);
                    }
                    return None;
                },
            }
        } else {
            proof {
                qualifiers_refused(*data, ps.drop_first(), i as int);
            }
            return None;
        }
        i = i + 1;
    }
    assert(ps.drop_first().subrange(0, i - 1) =~= ps.drop_first());
    let prefix = match &script {
        Some(s) => base.clone().concat("-").concat(s.as_str()),
        None => base.clone(),
    };
    let territory = match territory {
        Some(t) => t,
        None => match table_get(&data.defaults, prefix.as_str()) {
            Some(d) => d.clone(),
            None => match table_get(&data.defaults, base.as_str()) {
                Some(d) => d.clone(),
                None => return None,
            },
        },
    };
    Some(prefix.concat("-").concat(territory.as_str()))
}

/// The name of one qualifier subtag: a script name, else a territory name.
pub open spec fn qualifier_name(data: LanguageData, part: Seq<char>) -> Option<Seq<char>> {
    match lookup(data.script_names@, part) {
        Some(n) => Some(n),
        None => lookup(data.territory_names@, part),
    }
}

/// The names of the qualifier subtags that have one, in order.
pub open spec fn qualifier_names(data: LanguageData, parts: Seq<Seq<char>>) -> Seq<Seq<char>>
    decreases parts.len(),
{
    if parts.len() == 0 {
        Seq::empty()
    } else {
        let r = qualifier_names(data, parts.drop_last());
        match qualifier_name(data, parts.last()) {
            Some(n) => r.push(n),
            None => r,
        }
    }
}

/// `items` joined with `sep` between them.
pub open spec fn join(items: Seq<Seq<char>>, sep: Seq<char>) -> Seq<char>
    decreases items.len(),
{
    if items.len() == 0 {
        Seq::empty()
    } else if items.len() == 1 {
        items[0]
    } else {
        join(items.drop_last(), sep) + sep + items.last()
    }
}

/// The English name of a language code: the language's name, followed by the
/// names of its script and territory subtags in brackets when it has any;
/// `multi` reads "Multiple languages".
pub open spec fn display_name(data: LanguageData, code: Seq<char>) -> Option<Seq<char>> {
    if code == "multi"@ {
        Some("Multiple languages"@)
    } else {
        let parts = split_dash(code);
        match lookup(data.names@, parts[0]) {
            None => None,
            Some(name) => {
                let q = qualifier_names(data, parts.drop_first());
                Some(
                    if q.len() == 0 {
                        name
                    } else {
                        name + " ("@ + join(q, ", "@) + ")"@
                    },
                )
            },
        }
    }
}

/// The English name of a language code (see `display_name`), or `None` when
/// its language subtag has no name.
pub fn language_name(code: &str, data: &LanguageData) -> (r: Option<String>)
    ensures
        view_opt_string(r) == display_name(*data, code@),
{
    if same(code, "multi") {
        return Some("Multiple languages".to_owned());
    }
    let parts = split_on_dash(code);
    let ghost ps = view_strings(parts@);
    proof {
        split_dash_nonempty(code@);
    }
    let name = match table_get(&data.names, parts[0].as_str()) {
        Some(n) => n,
        None => return None,
    };
    let mut names: Vec<String> = Vec::new();
    let mut i: usize = 1;
    assert(ps.drop_first().subrange(0, 0) =~= Seq::<Seq<char>>::empty());
    while i < parts.len()
        invariant
            1 <= i <= parts@.len(),
            ps == view_strings(parts@),
            ps == split_dash(code@),
            view_strings(names@) == qualifier_names(*data, ps.drop_first().subrange(0, i - 1)),
        decreases parts@.len() - i,
    {
        let ghost done = ps.drop_first().subrange(0, i - 1);
        let ghost next = ps.drop_first().subrange(0, i as int);
        assert(next.drop_last() =~= done);
        assert(next.last() == parts@[i as int]@);
        let part = parts[i].as_str();
        let found = match table_get(&data.script_names, part) {
            Some(n) => Some(n),
            None => table_get(&data.territory_names, part),
        };
        match found {
            Some(n) => {
                names.push(n.clone());
                assert(view_strings(names@) =~= qualifier_names(*data, next));
            },
            None => {},
        }
        i = i + 1;
    }
    assert(ps.drop_first().subrange(0, i - 1) =~= ps.drop_first());
    if names.len() == 0 {
        return Some(name.clone());
    }
    let joined = join_strings(&names, ", ");
    Some(name.clone().concat(" (").concat(joined.as_str()).concat(")"))
}

/// The strings of `items` joined with `sep` between them.
pub fn join_strings(items: &Vec<String>, sep: &str) -> (r: String)
    ensures
        r@ == join(view_strings(items@), sep@),
{
    let ghost vs = view_strings(items@);
    let mut out = String::new();
    let mut i: usize = 0;
    while i < items.len()
        invariant
            i <= items@.len(),
            vs == view_strings(items@),
            out@ == join(vs.subrange(0, i as int), sep@),
        decreases items@.len() - i,
    {
        assert(vs.subrange(0, i + 1).drop_last() =~= vs.subrange(0, i as int));
        if i == 0 {
            out = items[i].clone();
        } else {
            out = out.concat(sep).concat(items[i].as_str());
        }
        i = i + 1;
    }
    assert(vs.subrange(0, i as int) =~= vs);
    out
}

} // verus!

verus! {

/// The regular expression that finds a language by its name or its code.
pub open spec fn language_pattern(code: Seq<char>, name: Seq<char>) -> Seq<char> {
    r"\b(?:"@ + name + "|"@ + code + r")\b"@
}

/// The language data together with a recognising pattern per language code.
pub struct Lexicon {
    pub data: LanguageData,
    /// `(code, pattern)` for each language of the translation table, in order.
    pub patterns: Vec<(String, String)>,
}

/// The patterns recognising each language of the translation table
/// (`(code, name)` pairs), in table order.
pub fn language_patterns(translations: &Vec<(String, String)>) -> (r: Vec<(String, String)>)
    ensures
        r@.len() == translations@.len(),
        forall|i: int|
            0 <= i < r@.len() ==> (#[trigger] r@[i]).0@ == translations@[i].0@ && r@[i].1@
                == language_pattern(translations@[i].0@, translations@[i].1@),
{
    let mut out: Vec<(String, String)> = Vec::new();
    let mut i: usize = 0;
    while i < translations.len()
        invariant
            i <= translations@.len(),
            out@.len() == i,
            forall|k: int|
                0 <= k < i ==> (#[trigger] out@[k]).0@ == translations@[k].0@ && out@[k].1@
                    == language_pattern(translations@[k].0@, translations@[k].1@),
        decreases translations@.len() - i,
    {
        let code = &translations[i].0;
        let name = &translations[i].1;
        let pattern = r"\b(?:".to_owned().concat(name.as_str()).concat("|").concat(
            code.as_str(),
        ).concat(r")\b");
        out.push((code.clone(), pattern));
        i = i + 1;
    }
    out
}

impl Lexicon {
    /// The lexicon of `data`, recognising the languages of `translations`.
    pub fn new(data: LanguageData, translations: &Vec<(String, String)>) -> (r: Lexicon)
        ensures
            r.data == data,
            r.patterns@.len() == translations@.len(),
            forall|i: int|
                0 <= i < r.patterns@.len() ==> (#[trigger] r.patterns@[i]).0@ == translations@[i].0@
                    && r.patterns@[i].1@ == language_pattern(
                    translations@[i].0@,
                    translations@[i].1@,
                ),
    {
        Lexicon { data, patterns: language_patterns(translations) }
    }
}

} // verus!
