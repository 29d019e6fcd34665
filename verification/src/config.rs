//! The rules of the configuration file: where the list of courses comes
//! from, what each setting defaults to, and which values are accepted.

use vstd::prelude::*;

use crate::text::{chars_of, is_ws, lemma_trim_shape, same_text, trim, trim_end, trim_start, trim_str};

verus! {

/// The configuration written on the first run, when there is none yet.
pub const DEFAULT_CONFIG: &'static str = "[settings]\ncourses = CC1253301, CC1253303\nwebhook =https://discord.com/api/webhooks/YOUR_WEBHOOK_ID/YOUR_WEBHOOK_TOKEN\ninterval = 0.3\nsys_notify = true\n";

/// The byte order mark that may open a UTF-8 file.
pub open spec fn is_bom(c: char) -> bool {
    c == '\u{feff}'
}

/// The text of a configuration file without the byte order mark that may
/// open it.
pub open spec fn without_bom(s: Seq<char>) -> Seq<char> {
    if s.len() > 0 && is_bom(s[0]) {
        s.drop_first()
    } else {
        s
    }
}

/// Drops the byte order mark that may open the text of a file.
pub fn strip_bom(text: &str) -> (r: &str)
    ensures
        r@ == without_bom(text@),
{
    let n = text.unicode_len();
    if n > 0 && text.get_char(0) == '\u{feff}' {
        text.substring_char(1, n)
    } else {
        assert(text@.subrange(0, n as int) =~= text@);
        text.substring_char(0, n)
    }
}

/// A character that separates the courses of a list: a comma or a line
/// break.
pub open spec fn is_separator(c: char) -> bool {
    c == ',' || c == '\n'
}

/// The pieces of `s` between separators, in order, empty ones included
/// (`str::split` on commas and line breaks).
pub open spec fn pieces(s: Seq<char>) -> Seq<Seq<char>>
    decreases s.len(),
{
    if s.len() == 0 {
        seq![Seq::empty()]
    } else {
        let p = pieces(s.drop_last());
        if is_separator(s.last()) {
            p.push(Seq::empty())
        } else {
            p.update(p.len() - 1, p.last().push(s.last()))
        }
    }
}

/// The pieces, each trimmed, with those left empty dropped.
pub open spec fn kept(ps: Seq<Seq<char>>) -> Seq<Seq<char>>
    decreases ps.len(),
{
    if ps.len() == 0 {
        Seq::empty()
    } else if trim(ps.last()).len() > 0 {
        kept(ps.drop_last()).push(trim(ps.last()))
    } else {
        kept(ps.drop_last())
    }
}

/// The courses that a comma- or line-separated list names.
pub open spec fn listed_courses(s: Seq<char>) -> Seq<Seq<char>> {
    kept(pieces(s))
}

pub open spec fn views(v: Seq<String>) -> Seq<Seq<char>> {
    v.map_values(|x: String| x@)
}

proof fn lemma_pieces_len(s: Seq<char>)
    ensures
        pieces(s).len() >= 1,
    decreases s.len(),
{
    if s.len() > 0 {
        lemma_pieces_len(s.drop_last());
    }
}

/// Splits `s` at commas and line breaks, trims each piece and keeps those
/// that are not empty.
pub fn split_course_list(s: &str) -> (r: Vec<String>)
    ensures
        views(r@) == listed_courses(s@),
{
    let v = chars_of(s);
    let n = v.len();
    let mut out: Vec<String> = Vec::new();
    let mut start: usize = 0;
    let mut i: usize = 0;
    proof {
        assert(s@.take(0) =~= Seq::<char>::empty());
        assert(s@.subrange(0, 0) =~= Seq::<char>::empty());
        assert(views(out@) =~= Seq::<Seq<char>>::empty());
    }
    while i < n
        invariant
            v@ == s@,
            n == s@.len(),
            start <= i <= n,
            pieces(s@.take(i as int)).last() == s@.subrange(start as int, i as int),
            views(out@) == kept(pieces(s@.take(i as int)).drop_last()),
        decreases n - i,
    {
        let ghost p = pieces(s@.take(i as int));
        proof {
            lemma_pieces_len(s@.take(i as int));
            assert(s@.take(i + 1).drop_last() =~= s@.take(i as int));
            assert(s@.take(i + 1).last() == v@[i as int]);
        }
        let c = v[i];
        if c == ',' || c == '\n' {
            let piece = trim_str(s.substring_char(start, i));
            if piece.unicode_len() > 0 {
                let ghost before = out@;
                out.push(piece.to_string());
                assert(views(out@) =~= views(before).push(piece@));
            }
            proof {
                let q = pieces(s@.take(i + 1));
                assert(q =~= p.push(Seq::empty()));
                assert(q.drop_last() =~= p);
                assert(p =~= p.drop_last().push(p.last()));
                assert(s@.subrange(i + 1, i + 1) =~= Seq::<char>::empty());
            }
            start = i + 1;
        } else {
            proof {
                let q = pieces(s@.take(i + 1));
                assert(q =~= p.update(p.len() - 1, p.last().push(c)));
                assert(q.drop_last() =~= p.drop_last());
                assert(s@.subrange(start as int, i + 1) =~= s@.subrange(start as int, i as int).push(
                    c,
                ));
            }
        }
        i = i + 1;
    }
    proof {
        lemma_pieces_len(s@);
        let p = pieces(s@);
        assert(s@.take(n as int) =~= s@);
        assert(p =~= p.drop_last().push(p.last()));
    }
    let piece = trim_str(s.substring_char(start, n));
    if piece.unicode_len() > 0 {
        let ghost before = out@;
        out.push(piece.to_string());
        assert(views(out@) =~= views(before).push(piece@));
    }
    out
}


/// What `serde_json::from_str::<Vec<String>>` reads from `text`: the list of
/// strings that it holds, or nothing where it is not a JSON array of strings.
pub uninterp spec fn json_string_list(text: Seq<char>) -> Option<Seq<Seq<char>>>;

/// Reads `text` as a JSON array of strings, with `serde_json::from_str`.
/// Trusted: the result is what `json_string_list` names for `text`; which
/// texts that is, is `serde_json`'s to say.
#[verifier::external_body]
fn json_strings(text: &str) -> (r: Option<Vec<String>>)
    ensures
        json_string_list(text@) == (match r {
            Some(v) => Some(views(v@)),
            None => None,
        }),
{
    serde_json::from_str::<Vec<String>>(text).ok()
}

/// The courses that the `courses` setting names. Trimmed, it is either a
/// JSON array of strings, which is taken as it is, or a list separated by
/// commas and line breaks.
pub open spec fn course_list(raw: Seq<char>) -> Seq<Seq<char>> {
    let t = trim(raw);
    if t.len() > 0 && t[0] == '[' && json_string_list(t) is Some {
        json_string_list(t).unwrap()
    } else {
        listed_courses(t)
    }
}

/// The courses of the trimmed `courses` setting `trimmed`, given what was
/// read from it as a JSON array of strings: that list where there is one,
/// the comma- and line-separated list otherwise.
pub fn course_list_from(trimmed: &str, parsed: Option<Vec<String>>) -> (r: Vec<String>)
    ensures
        views(r@) == (match parsed {
            Some(v) => views(v@),
            None => listed_courses(trimmed@),
        }),
{
    match parsed {
        Some(list) => list,
        None => split_course_list(trimmed),
    }
}

/// The courses that the `courses` setting `raw` names.
pub fn parse_course_list(raw: &str) -> (r: Vec<String>)
    ensures
        views(r@) == course_list(raw@),
{
    let t = trim_str(raw);
    let parsed = if t.unicode_len() > 0 && t.get_char(0) == '[' {
        json_strings(t)
    } else {
        None
    };
    course_list_from(t, parsed)
}


#[verifier::external_type_specification]
#[verifier::external_body]
pub struct ExIni(ini::Ini);

#[verifier::external_type_specification]
#[verifier::external_body]
pub struct ExProperties(ini::Properties);

#[verifier::external_type_specification]
#[verifier::external_body]
pub struct ExIniParseError(ini::ParseError);

/// The sections of an `ini::Ini`, in the order in which they were added:
/// each with its name (`None` for the general section) and its key-value
/// pairs, in the order in which they were added.
pub uninterp spec fn ini_sections(ini: ini::Ini) -> Seq<(Option<Seq<char>>, Seq<(Seq<char>, Seq<char>)>)>;

/// The key-value pairs of an `ini::Properties`, in the order in which they
/// were added.
pub uninterp spec fn property_entries(p: ini::Properties) -> Seq<(Seq<char>, Seq<char>)>;

/// The sections that `ini::Ini::load_from_str` reads from `text`, or nothing
/// where it refuses the text.
pub uninterp spec fn ini_text_sections(text: Seq<char>) -> Option<Seq<(Option<Seq<char>>, Seq<(Seq<char>, Seq<char>)>)>>;

/// The key-value pairs of the first section named `name`.
pub open spec fn section_entries(
    sections: Seq<(Option<Seq<char>>, Seq<(Seq<char>, Seq<char>)>)>,
    name: Option<Seq<char>>,
) -> Option<Seq<(Seq<char>, Seq<char>)>>
    decreases sections.len(),
{
    if sections.len() == 0 {
        None
    } else if sections[0].0 == name {
        Some(sections[0].1)
    } else {
        section_entries(sections.drop_first(), name)
    }
}

/// The value of the first pair whose key is `key`.
pub open spec fn entry_lookup(entries: Seq<(Seq<char>, Seq<char>)>, key: Seq<char>) -> Option<Seq<char>>
    decreases entries.len(),
{
    if entries.len() == 0 {
        None
    } else if entries[0].0 == key {
        Some(entries[0].1)
    } else {
        entry_lookup(entries.drop_first(), key)
    }
}

/// Parses an INI text with `ini::Ini::load_from_str`. Trusted: on success
/// the sections of the result are those that `ini_text_sections` names for
/// `text`; it fails exactly where that names nothing.
#[verifier::external_body]
fn load_ini(text: &str) -> (r: Result<ini::Ini, ini::ParseError>)
    ensures
        match r {
            Ok(conf) => ini_text_sections(text@) == Some(ini_sections(conf)),
            Err(_) => ini_text_sections(text@) is None,
        },
{
    ini::Ini::load_from_str(text)
}

/// The first section named `name` (`ini::Ini::section`). Trusted: it is the
/// first, in the order of addition, whose name is `name`, as the source of
/// `ini` and `ordered-multimap` shows.
#[verifier::external_body]
fn ini_section<'a>(conf: &'a ini::Ini, name: &str) -> (r: Option<&'a ini::Properties>)
    ensures
        section_entries(ini_sections(*conf), Some(name@)) == (match r {
            Some(p) => Some(property_entries(*p)),
            None => None,
        }),
{
    conf.section(Some(name))
}

/// The first value under `key` (`ini::Properties::get`). Trusted: it is the
/// first, in the order of addition, whose key is `key`, as the source of
/// `ini` and `ordered-multimap` shows.
#[verifier::external_body]
fn property_get<'a>(p: &'a ini::Properties, key: &str) -> (r: Option<&'a str>)
    ensures
        entry_lookup(property_entries(*p), key@) == (match r {
            Some(v) => Some(v@),
            None => None,
        }),
{
    p.get(key)
}

/// What `str::to_lowercase` gives for `s`.
pub uninterp spec fn lowercase(s: Seq<char>) -> Seq<char>;

/// Whether every character of `s` is ASCII.
pub open spec fn is_ascii_text(s: Seq<char>) -> bool {
    forall|i: int| 0 <= i < s.len() ==> (#[trigger] s[i] as u32) < 128
}

/// `c` in lower case, where it is an ASCII capital; `c` itself otherwise.
pub open spec fn ascii_lower_char(c: char) -> char {
    if 'A' <= c <= 'Z' {
        ((c as u32) + 32) as char
    } else {
        c
    }
}

/// `s` with its ASCII capitals in lower case.
pub open spec fn ascii_lower(s: Seq<char>) -> Seq<char> {
    s.map_values(|c: char| ascii_lower_char(c))
}

/// `s` in lower case, by `str::to_lowercase`. Trusted: the result is what
/// `lowercase` names for `s`, and for ASCII text it is that text with
/// `A`-`Z` turned into `a`-`z` (Unicode maps each ASCII capital to its
/// small letter and leaves every other ASCII character as it is). What it
/// gives for other text is left to the name: it is std's Unicode case
/// mapping.
#[verifier::external_body]
fn to_lowercase(s: &str) -> (r: String)
    ensures
        r@ == lowercase(s@),
        is_ascii_text(s@) ==> r@ == ascii_lower(s@),
{
    s.to_lowercase()
}

/// The settings that the configuration file gives, before the polling
/// interval is read as a number of seconds.
pub struct Settings {
    /// The courses to watch.
    pub courses: Vec<String>,
    /// The Discord webhook; empty for none.
    pub webhook: String,
    /// The polling interval, as written (trimmed).
    pub interval: String,
    /// Whether to raise system notifications, as written (trimmed, in lower
    /// case).
    pub sys_notify: String,
}

/// Why the configuration file gives no settings.
pub enum ConfigError {
    /// The text is not INI.
    Syntax(ini::ParseError),
    /// There is no `[settings]` section.
    MissingSection,
    /// The `[settings]` section has no `courses` key.
    MissingCourses,
    /// The `courses` key names no course.
    NoCourses,
}

/// The value under `key`, or `default` where there is none.
pub open spec fn setting_or(entries: Seq<(Seq<char>, Seq<char>)>, key: Seq<char>, default: Seq<char>) -> Seq<char> {
    match entry_lookup(entries, key) {
        Some(v) => v,
        None => default,
    }
}

/// What the settings of the `[settings]` section `entries` are: the
/// courses, which must name at least one course; the webhook (empty by
/// default); the interval (`0.3` by default); and the notification switch
/// (`true` by default, read in lower case). Every value is trimmed.
pub open spec fn settings_match(st: Settings, entries: Seq<(Seq<char>, Seq<char>)>) -> bool {
    &&& entry_lookup(entries, "courses"@) matches Some(raw) && views(st.courses@) == course_list(raw)
    &&& st.webhook@ == trim(setting_or(entries, "webhook"@, Seq::empty()))
    &&& st.interval@ == trim(setting_or(entries, "interval"@, "0.3"@))
    &&& st.sys_notify@ == lowercase(trim(setting_or(entries, "sys_notify"@, "true"@)))
    &&& is_ascii_text(trim(setting_or(entries, "sys_notify"@, "true"@))) ==> st.sys_notify@
        == ascii_lower(trim(setting_or(entries, "sys_notify"@, "true"@)))
}

/// The outcome of reading settings from INI sections.
pub open spec fn settings_outcome(
    sections: Seq<(Option<Seq<char>>, Seq<(Seq<char>, Seq<char>)>)>,
    r: Result<Settings, ConfigError>,
) -> bool {
    match section_entries(sections, Some("settings"@)) {
        None => r matches Err(ConfigError::MissingSection),
        Some(entries) => match entry_lookup(entries, "courses"@) {
            None => r matches Err(ConfigError::MissingCourses),
            Some(raw) => if course_list(raw).len() == 0 {
                r matches Err(ConfigError::NoCourses)
            } else {
                r matches Ok(st) && settings_match(st, entries)
            },
        },
    }
}

/// Reads the settings from a parsed configuration.
pub fn settings_from_ini(conf: &ini::Ini) -> (r: Result<Settings, ConfigError>)
    ensures
        settings_outcome(ini_sections(*conf), r),
{
    let section = match ini_section(conf, "settings") {
        Some(p) => p,
        None => return Err(ConfigError::MissingSection),
    };
    let courses_raw = match property_get(section, "courses") {
        Some(v) => v,
        None => return Err(ConfigError::MissingCourses),
    };
    let courses = parse_course_list(courses_raw);
    if courses.len() == 0 {
        return Err(ConfigError::NoCourses);
    }
    let webhook = match property_get(section, "webhook") {
        Some(v) => trim_str(v).to_string(),
        None => {
            proof {
                reveal_strlit("");
            }
            trim_str("").to_string()
        },
    };
    let interval = trim_str(
        match property_get(section, "interval") {
            Some(v) => v,
            None => "0.3",
        },
    ).to_string();
    let sys_notify = to_lowercase(
        trim_str(
            match property_get(section, "sys_notify") {
                Some(v) => v,
                None => "true",
            },
        ),
    );
    let st = Settings { courses, webhook, interval, sys_notify };
    assert(views(st.courses@).len() == st.courses@.len());
    assert(entry_lookup(property_entries(*section), "courses"@) matches Some(raw) && views(st.courses@) == course_list(raw));
    assert(st.webhook@ == trim(setting_or(property_entries(*section), "webhook"@, Seq::empty())));
    assert(st.interval@ == trim(setting_or(property_entries(*section), "interval"@, "0.3"@)));
    assert(st.sys_notify@ == lowercase(trim(setting_or(property_entries(*section), "sys_notify"@, "true"@))));
    assert(is_ascii_text(trim(setting_or(property_entries(*section), "sys_notify"@, "true"@))) ==> st.sys_notify@
        == ascii_lower(trim(setting_or(property_entries(*section), "sys_notify"@, "true"@))));
    Ok(st)
}

/// The outcome of reading settings from the text of a configuration file:
/// a syntax error where `rust-ini` refuses the text (without the byte order
/// mark that may open it), the outcome for the sections it reads otherwise.
pub open spec fn read_outcome(text: Seq<char>, r: Result<Settings, ConfigError>) -> bool {
    match ini_text_sections(without_bom(text)) {
        None => r matches Err(ConfigError::Syntax(_)),
        Some(sections) => settings_outcome(sections, r),
    }
}

/// Reads the settings from the text of a configuration file (a byte order
/// mark that opens it is dropped).
pub fn read_settings(text: &str) -> (r: Result<Settings, ConfigError>)
    ensures
        read_outcome(text@, r),
{
    match load_ini(strip_bom(text)) {
        Ok(conf) => settings_from_ini(&conf),
        Err(e) => Err(ConfigError::Syntax(e)),
    }
}

/// Which notification switch a setting (trimmed, in lower case) stands for:
/// `true`, `1` and `yes` turn notifications on, `false`, `0` and `no` off;
/// anything else stands for neither.
pub open spec fn notify_choice(s: Seq<char>) -> Option<bool> {
    if s == "true"@ || s == "1"@ || s == "yes"@ {
        Some(true)
    } else if s == "false"@ || s == "0"@ || s == "no"@ {
        Some(false)
    } else {
        None
    }
}

/// Reads the notification switch from its setting (trimmed, in lower case).
pub fn notify_flag(s: &str) -> (r: Option<bool>)
    ensures
        r == notify_choice(s@),
{
    if same_text(s, "true") || same_text(s, "1") || same_text(s, "yes") {
        Some(true)
    } else if same_text(s, "false") || same_text(s, "0") || same_text(s, "no") {
        Some(false)
    } else {
        None
    }
}

} // verus!

verus! {

pub open spec fn has_no_separator(s: Seq<char>) -> bool {
    forall|j: int| 0 <= j < s.len() ==> !is_separator(#[trigger] s[j])
}

proof fn lemma_pieces_have_no_separator(s: Seq<char>)
    ensures
        forall|i: int| 0 <= i < pieces(s).len() ==> has_no_separator(#[trigger] pieces(s)[i]),
    decreases s.len(),
{
    if s.len() > 0 {
        lemma_pieces_have_no_separator(s.drop_last());
        lemma_pieces_len(s.drop_last());
        let p = pieces(s.drop_last());
        if !is_separator(s.last()) {
            let q = p.last().push(s.last());
            assert(has_no_separator(p[p.len() - 1]));
            assert forall|j: int| 0 <= j < q.len() implies !is_separator(#[trigger] q[j]) by {
                if j < q.len() - 1 {
                    assert(q[j] == p.last()[j]);
                }
            }
        }
        assert forall|i: int| 0 <= i < pieces(s).len() implies has_no_separator(
            #[trigger] pieces(s)[i],
        ) by {
            if is_separator(s.last()) {
                if i < p.len() {
                    assert(pieces(s)[i] == p[i]);
                } else {
                    assert(pieces(s)[i] =~= Seq::<char>::empty());
                }
            } else if i < p.len() - 1 {
                assert(pieces(s)[i] == p[i]);
            }
        }
    }
}

proof fn lemma_kept_clean(ps: Seq<Seq<char>>)
    requires
        forall|i: int| 0 <= i < ps.len() ==> has_no_separator(#[trigger] ps[i]),
    ensures
        forall|i: int|
            0 <= i < kept(ps).len() ==> {
                let c = #[trigger] kept(ps)[i];
                &&& c.len() > 0
                &&& trim(c) == c
                &&& has_no_separator(c)
            },
    decreases ps.len(),
{
    if ps.len() > 0 {
        let rest = ps.drop_last();
        assert forall|i: int| 0 <= i < rest.len() implies has_no_separator(#[trigger] rest[i]) by {
            assert(rest[i] == ps[i]);
        }
        lemma_kept_clean(rest);
        let last = ps.last();
        assert(has_no_separator(ps[ps.len() - 1]));
        lemma_trim_shape(last);
        let t = trim(last);
        let (a, b) = choose|a: int, b: int| 0 <= a <= b <= last.len() && t == last.subrange(a, b);
        assert forall|j: int| 0 <= j < t.len() implies !is_separator(#[trigger] t[j]) by {
            assert(t[j] == last[a + j]);
        }
        assert forall|i: int| 0 <= i < kept(ps).len() implies {
            let c = #[trigger] kept(ps)[i];
            &&& c.len() > 0
            &&& trim(c) == c
            &&& has_no_separator(c)
        } by {
            if i < kept(rest).len() {
                assert(kept(ps)[i] == kept(rest)[i]);
            }
        }
    }
}

/// Each course that a comma- or line-separated list names is a non-empty
/// course number with no whitespace around it and no comma or line break in
/// it.
pub proof fn law_listed_courses_are_clean(s: Seq<char>)
    ensures
        forall|i: int|
            0 <= i < listed_courses(s).len() ==> {
                let c = #[trigger] listed_courses(s)[i];
                &&& c.len() > 0
                &&& trim(c) == c
                &&& has_no_separator(c)
            },
{
    lemma_pieces_have_no_separator(s);
    lemma_kept_clean(pieces(s));
}

} // verus!

verus! {

proof fn lemma_pieces_append_plain(s: Seq<char>, t: Seq<char>)
    requires
        has_no_separator(t),
    ensures
        pieces(s + t) == pieces(s).update(pieces(s).len() - 1, pieces(s).last() + t),
    decreases t.len(),
{
    lemma_pieces_len(s);
    let p = pieces(s);
    if t.len() == 0 {
        assert(s + t =~= s);
        assert(p.last() + t =~= p.last());
        assert(p.update(p.len() - 1, p.last() + t) =~= p);
    } else {
        let u = t.drop_last();
        assert(has_no_separator(u)) by {
            assert forall|j: int| 0 <= j < u.len() implies !is_separator(#[trigger] u[j]) by {
                assert(u[j] == t[j]);
            }
        }
        lemma_pieces_append_plain(s, u);
        assert((s + t).drop_last() =~= s + u);
        assert((s + t).last() == t.last());
        assert(!is_separator(t[t.len() - 1]));
        let q = pieces(s + u);
        assert(q.last() == p.last() + u);
        assert(q.last().push(t.last()) =~= p.last() + t);
        assert(q.update(q.len() - 1, q.last().push(t.last())) =~= p.update(
            p.len() - 1,
            p.last() + t,
        ));
    }
}

proof fn lemma_trim_fixed(s: Seq<char>)
    requires
        s.len() > 0,
        !is_ws(s[0]),
        !is_ws(s.last()),
    ensures
        trim(s) == s,
{
}

/// The `[settings]` section of `DEFAULT_CONFIG`, as `rust-ini` reads it.
pub open spec fn default_settings_entries() -> Seq<(Seq<char>, Seq<char>)> {
    seq![
        ("courses"@, "CC1253301, CC1253303"@),
        ("webhook"@, "https://discord.com/api/webhooks/YOUR_WEBHOOK_ID/YOUR_WEBHOOK_TOKEN"@),
        ("interval"@, "0.3"@),
        ("sys_notify"@, "true"@),
    ]
}

/// The configuration written on the first run is accepted on the next: read
/// back, it watches `CC1253301` and `CC1253303`, posts to the placeholder
/// webhook, polls every `0.3` seconds and raises system notifications.
/// It is stated for the sections that `rust-ini` reads from that text.
pub proof fn law_default_config_accepted(r: Result<Settings, ConfigError>)
    requires
        ini_text_sections(without_bom(DEFAULT_CONFIG@)) matches Some(sections) && section_entries(
            sections,
            Some("settings"@),
        ) == Some(default_settings_entries()),
        read_outcome(DEFAULT_CONFIG@, r),
    ensures
        r matches Ok(st) && {
            &&& views(st.courses@) == seq!["CC1253301"@, "CC1253303"@]
            &&& st.webhook@
                == "https://discord.com/api/webhooks/YOUR_WEBHOOK_ID/YOUR_WEBHOOK_TOKEN"@
            &&& st.interval@ == "0.3"@
            &&& notify_choice(st.sys_notify@) == Some(true)
        },
{
    reveal_strlit("courses");
    reveal_strlit("webhook");
    reveal_strlit("interval");
    reveal_strlit("sys_notify");
    reveal_strlit("CC1253301, CC1253303");
    reveal_strlit("CC1253301");
    reveal_strlit("CC1253303");
    reveal_strlit(" CC1253303");
    reveal_strlit("https://discord.com/api/webhooks/YOUR_WEBHOOK_ID/YOUR_WEBHOOK_TOKEN");
    reveal_strlit("0.3");
    reveal_strlit("true");
    let es = default_settings_entries();
    assert(es.drop_first()[0].0 == "webhook"@);
    assert(es.drop_first().drop_first()[0].0 == "interval"@);
    assert(es.drop_first().drop_first().drop_first()[0].0 == "sys_notify"@);
    assert("courses"@ != "webhook"@) by {
        assert("courses"@[0] != "webhook"@[0]);
    }
    assert("courses"@ != "interval"@) by {
        assert("courses"@[0] != "interval"@[0]);
    }
    assert("courses"@ != "sys_notify"@) by {
        assert("courses"@[0] != "sys_notify"@[0]);
    }
    assert("webhook"@ != "interval"@) by {
        assert("webhook"@[0] != "interval"@[0]);
    }
    assert("webhook"@ != "sys_notify"@) by {
        assert("webhook"@[0] != "sys_notify"@[0]);
    }
    assert("interval"@ != "sys_notify"@) by {
        assert("interval"@[0] != "sys_notify"@[0]);
    }
    reveal_with_fuel(entry_lookup, 5);
    assert(entry_lookup(es, "courses"@) == Some("CC1253301, CC1253303"@));
    assert(entry_lookup(es, "webhook"@) == Some(
        "https://discord.com/api/webhooks/YOUR_WEBHOOK_ID/YOUR_WEBHOOK_TOKEN"@,
    ));
    assert(entry_lookup(es, "interval"@) == Some("0.3"@));
    assert(entry_lookup(es, "sys_notify"@) == Some("true"@));
    // The course list: "CC1253301" "," " CC1253303".
    let raw = "CC1253301, CC1253303"@;
    let a = "CC1253301"@;
    let b = " CC1253303"@;
    lemma_trim_fixed(raw);
    assert(has_no_separator(a));
    assert(has_no_separator(b));
    lemma_pieces_append_plain(Seq::empty(), a);
    assert(Seq::<char>::empty() + a =~= a);
    assert(pieces(a) =~= seq![a]);
    assert(a.push(',').drop_last() =~= a);
    assert(pieces(a.push(',')) =~= seq![a, Seq::empty()]);
    lemma_pieces_append_plain(a.push(','), b);
    assert(a.push(',') + b =~= raw);
    assert(pieces(raw) =~= seq![a, b]);
    lemma_trim_fixed(a);
    assert(is_ws(b[0]));
    assert(!is_ws(b.drop_first()[0]));
    assert(trim_start(b.drop_first()) == b.drop_first());
    assert(trim_start(b) == b.drop_first());
    assert(b.drop_first() =~= "CC1253303"@);
    lemma_trim_fixed("CC1253303"@);
    assert(trim(b) == "CC1253303"@);
    assert(seq![a, b].drop_last() =~= seq![a]);
    assert(seq![a].drop_last() =~= Seq::<Seq<char>>::empty());
    assert(seq![a].last() == a);
    assert(trim(a).len() > 0);
    assert(kept(Seq::<Seq<char>>::empty()) == Seq::<Seq<char>>::empty());
    assert(kept(seq![a]) =~= seq![a]);
    assert(kept(seq![a, b]) =~= seq![a, "CC1253303"@]);
    assert(course_list(raw) =~= seq!["CC1253301"@, "CC1253303"@]);
    // The other settings, trimmed.
    lemma_trim_fixed("https://discord.com/api/webhooks/YOUR_WEBHOOK_ID/YOUR_WEBHOOK_TOKEN"@);
    lemma_trim_fixed("0.3"@);
    lemma_trim_fixed("true"@);
    assert(is_ascii_text("true"@));
    assert(ascii_lower("true"@) =~= "true"@);
}

/// The notification switch ignores the case of ASCII letters: `Yes`, `TRUE`
/// or `No` turn notifications on or off as `yes`, `true` or `no` do.
pub proof fn law_notify_ignores_ascii_case(st: Settings, entries: Seq<(Seq<char>, Seq<char>)>)
    requires
        settings_match(st, entries),
        is_ascii_text(trim(setting_or(entries, "sys_notify"@, "true"@))),
    ensures
        notify_choice(st.sys_notify@) == notify_choice(
            ascii_lower(trim(setting_or(entries, "sys_notify"@, "true"@))),
        ),
{
}

} // verus!

verus! {

proof fn lemma_pieces_concat(s: Seq<char>, t: Seq<char>)
    ensures
        pieces(s + t) == pieces(s).drop_last() + seq![pieces(s).last() + pieces(t)[0]]
            + pieces(t).skip(1),
    decreases t.len(),
{
    lemma_pieces_len(s);
    lemma_pieces_len(t);
    let p = pieces(s);
    if t.len() == 0 {
        assert(s + t =~= s);
        assert(pieces(t) =~= seq![Seq::<char>::empty()]);
        assert(p.last() + Seq::<char>::empty() =~= p.last());
        assert(p.drop_last() + seq![p.last()] + pieces(t).skip(1) =~= p);
    } else {
        let u = t.drop_last();
        let c = t.last();
        lemma_pieces_concat(s, u);
        lemma_pieces_len(u);
        let q = pieces(s + u);
        let tu = pieces(u);
        assert((s + t).drop_last() =~= s + u);
        assert((s + t).last() == c);
        if is_separator(c) {
            assert(pieces(t) == tu.push(Seq::empty()));
            assert(pieces(t)[0] == tu[0]);
            assert(pieces(t).skip(1) =~= tu.skip(1).push(Seq::empty()));
            assert(pieces(s + t) == q.push(Seq::empty()));
            assert(q.push(Seq::empty()) =~= p.drop_last() + seq![p.last() + pieces(t)[0]]
                + pieces(t).skip(1));
        } else {
            assert(pieces(t) == tu.update(tu.len() - 1, tu.last().push(c)));
            assert(pieces(s + t) == q.update(q.len() - 1, q.last().push(c)));
            if tu.len() == 1 {
                assert(pieces(t)[0] == tu[0].push(c));
                assert(p.last() + tu[0].push(c) =~= (p.last() + tu[0]).push(c));
                assert(q.update(q.len() - 1, q.last().push(c)) =~= p.drop_last() + seq![
                    p.last() + pieces(t)[0],
                ] + pieces(t).skip(1));
            } else {
                assert(pieces(t)[0] == tu[0]);
                assert(pieces(t).skip(1) =~= tu.skip(1).update(
                    tu.len() - 2,
                    tu.last().push(c),
                ));
                assert(q.update(q.len() - 1, q.last().push(c)) =~= p.drop_last() + seq![
                    p.last() + pieces(t)[0],
                ] + pieces(t).skip(1));
            }
        }
    }
}

proof fn lemma_kept_concat(x: Seq<Seq<char>>, y: Seq<Seq<char>>)
    ensures
        kept(x + y) == kept(x) + kept(y),
    decreases y.len(),
{
    if y.len() == 0 {
        assert(x + y =~= x);
        assert(kept(x) + kept(y) =~= kept(x));
    } else {
        lemma_kept_concat(x, y.drop_last());
        assert((x + y).drop_last() =~= x + y.drop_last());
        assert((x + y).last() == y.last());
        if trim(y.last()).len() > 0 {
            assert(kept(x) + kept(y.drop_last()).push(trim(y.last())) =~= (kept(x) + kept(
                y.drop_last(),
            )).push(trim(y.last())));
        }
    }
}

/// A comma splits a course list into two lists that are read one after the
/// other: every course on either side is kept, in order, however many
/// there are.
pub proof fn law_listed_courses_comma(a: Seq<char>, b: Seq<char>)
    ensures
        listed_courses(a + seq![','] + b) == listed_courses(a) + listed_courses(b),
{
    let s = a.push(',');
    assert(a + seq![','] + b =~= s + b);
    assert(s.drop_last() =~= a);
    lemma_pieces_len(a);
    lemma_pieces_len(b);
    let pa = pieces(a);
    let pb = pieces(b);
    assert(pieces(s) == pa.push(Seq::empty()));
    lemma_pieces_concat(s, b);
    assert(pieces(s).drop_last() =~= pa);
    assert(Seq::<char>::empty() + pb[0] =~= pb[0]);
    assert(seq![pb[0]] + pb.skip(1) =~= pb);
    assert(pieces(s + b) =~= pa + pb);
    lemma_kept_concat(pa, pb);
}

/// A line break splits a course list as a comma does.
pub proof fn law_listed_courses_line_break(a: Seq<char>, b: Seq<char>)
    ensures
        listed_courses(a + seq!['\n'] + b) == listed_courses(a) + listed_courses(b),
{
    let s = a.push('\n');
    assert(a + seq!['\n'] + b =~= s + b);
    assert(s.drop_last() =~= a);
    lemma_pieces_len(a);
    lemma_pieces_len(b);
    let pa = pieces(a);
    let pb = pieces(b);
    assert(pieces(s) == pa.push(Seq::empty()));
    lemma_pieces_concat(s, b);
    assert(pieces(s).drop_last() =~= pa);
    assert(Seq::<char>::empty() + pb[0] =~= pb[0]);
    assert(seq![pb[0]] + pb.skip(1) =~= pb);
    assert(pieces(s + b) =~= pa + pb);
    lemma_kept_concat(pa, pb);
}

/// Text without a comma or a line break names one course, itself trimmed,
/// unless it is blank.
pub proof fn law_listed_course_single(s: Seq<char>)
    requires
        forall|j: int| 0 <= j < s.len() ==> #[trigger] s[j] != ',' && s[j] != '\n',
    ensures
        listed_courses(s) == (if trim(s).len() > 0 {
            seq![trim(s)]
        } else {
            Seq::<Seq<char>>::empty()
        }),
{
    assert(has_no_separator(s));
    lemma_pieces_append_plain(Seq::empty(), s);
    assert(Seq::<char>::empty() + s =~= s);
    assert(pieces(s) =~= seq![s]);
    assert(seq![s].drop_last() =~= Seq::<Seq<char>>::empty());
    assert(kept(Seq::<Seq<char>>::empty()) == Seq::<Seq<char>>::empty());
    if trim(s).len() > 0 {
        assert(kept(seq![s]) =~= seq![trim(s)]);
    }
}

} // verus!

verus! {

/// `k` is the first place of `key` among `entries`.
pub open spec fn first_key_at(entries: Seq<(Seq<char>, Seq<char>)>, key: Seq<char>, k: int) -> bool {
    &&& 0 <= k < entries.len()
    &&& entries[k].0 == key
    &&& forall|j: int| 0 <= j < k ==> (#[trigger] entries[j]).0 != key
}

/// `key` is not among `entries`.
pub open spec fn key_absent(entries: Seq<(Seq<char>, Seq<char>)>, key: Seq<char>) -> bool {
    forall|j: int| 0 <= j < entries.len() ==> (#[trigger] entries[j]).0 != key
}

proof fn lemma_lookup_first(entries: Seq<(Seq<char>, Seq<char>)>, key: Seq<char>, k: int)
    requires
        first_key_at(entries, key, k),
    ensures
        entry_lookup(entries, key) == Some(entries[k].1),
    decreases k,
{
    if k > 0 {
        let t = entries.drop_first();
        assert(entries[0].0 != key);
        assert forall|j: int| 0 <= j < k - 1 implies (#[trigger] t[j]).0 != key by {
            assert(t[j] == entries[j + 1]);
        }
        lemma_lookup_first(t, key, k - 1);
    }
}

proof fn lemma_lookup_absent(entries: Seq<(Seq<char>, Seq<char>)>, key: Seq<char>)
    requires
        key_absent(entries, key),
    ensures
        entry_lookup(entries, key) is None,
    decreases entries.len(),
{
    if entries.len() > 0 {
        let t = entries.drop_first();
        assert(entries[0].0 != key);
        assert forall|j: int| 0 <= j < t.len() implies (#[trigger] t[j]).0 != key by {
            assert(t[j] == entries[j + 1]);
        }
        lemma_lookup_absent(t, key);
    }
}

/// Each setting is the first value written under its key, trimmed (the
/// switch also in lower case). Where the key is missing, the webhook is
/// empty, the interval is `0.3` and notifications are on.
pub proof fn law_setting_values(st: Settings, entries: Seq<(Seq<char>, Seq<char>)>, k: int)
    requires
        settings_match(st, entries),
    ensures
        first_key_at(entries, "courses"@, k) ==> views(st.courses@) == course_list(entries[k].1),
        first_key_at(entries, "webhook"@, k) ==> st.webhook@ == trim(entries[k].1),
        first_key_at(entries, "interval"@, k) ==> st.interval@ == trim(entries[k].1),
        first_key_at(entries, "sys_notify"@, k) ==> st.sys_notify@ == lowercase(trim(entries[k].1)),
        key_absent(entries, "webhook"@) ==> st.webhook@.len() == 0,
        key_absent(entries, "interval"@) ==> st.interval@ == "0.3"@,
        key_absent(entries, "sys_notify"@) ==> notify_choice(st.sys_notify@) == Some(true),
{
    reveal_strlit("0.3");
    reveal_strlit("true");
    if first_key_at(entries, "courses"@, k) {
        lemma_lookup_first(entries, "courses"@, k);
    }
    if first_key_at(entries, "webhook"@, k) {
        lemma_lookup_first(entries, "webhook"@, k);
    }
    if first_key_at(entries, "interval"@, k) {
        lemma_lookup_first(entries, "interval"@, k);
    }
    if first_key_at(entries, "sys_notify"@, k) {
        lemma_lookup_first(entries, "sys_notify"@, k);
    }
    if key_absent(entries, "webhook"@) {
        lemma_lookup_absent(entries, "webhook"@);
        assert(trim(Seq::<char>::empty()) =~= Seq::<char>::empty());
    }
    if key_absent(entries, "interval"@) {
        lemma_lookup_absent(entries, "interval"@);
        lemma_trim_fixed("0.3"@);
    }
    if key_absent(entries, "sys_notify"@) {
        lemma_lookup_absent(entries, "sys_notify"@);
        lemma_trim_fixed("true"@);
        assert(is_ascii_text("true"@));
        assert(ascii_lower("true"@) =~= "true"@);
    }
}

proof fn lemma_section_first(
    sections: Seq<(Option<Seq<char>>, Seq<(Seq<char>, Seq<char>)>)>,
    name: Option<Seq<char>>,
    k: int,
)
    requires
        0 <= k < sections.len(),
        sections[k].0 == name,
        forall|j: int| 0 <= j < k ==> (#[trigger] sections[j]).0 != name,
    ensures
        section_entries(sections, name) == Some(sections[k].1),
    decreases k,
{
    if k > 0 {
        let t = sections.drop_first();
        assert(sections[0].0 != name);
        assert forall|j: int| 0 <= j < k - 1 implies (#[trigger] t[j]).0 != name by {
            assert(t[j] == sections[j + 1]);
        }
        lemma_section_first(t, name, k - 1);
    }
}

proof fn lemma_section_absent(
    sections: Seq<(Option<Seq<char>>, Seq<(Seq<char>, Seq<char>)>)>,
    name: Option<Seq<char>>,
)
    requires
        forall|j: int| 0 <= j < sections.len() ==> (#[trigger] sections[j]).0 != name,
    ensures
        section_entries(sections, name) is None,
    decreases sections.len(),
{
    if sections.len() > 0 {
        let t = sections.drop_first();
        assert(sections[0].0 != name);
        assert forall|j: int| 0 <= j < t.len() implies (#[trigger] t[j]).0 != name by {
            assert(t[j] == sections[j + 1]);
        }
        lemma_section_absent(t, name);
    }
}

/// Settings come from the first `[settings]` section only, and only when it
/// names at least one course: without such a section the answer is a
/// missing section, without a `courses` key in it a missing course list,
/// and with an empty list no course.
pub proof fn law_settings_from_first_section(
    sections: Seq<(Option<Seq<char>>, Seq<(Seq<char>, Seq<char>)>)>,
    r: Result<Settings, ConfigError>,
    k: int,
)
    requires
        settings_outcome(sections, r),
    ensures
        (forall|j: int| 0 <= j < sections.len() ==> (#[trigger] sections[j]).0 != Some("settings"@))
            ==> r matches Err(ConfigError::MissingSection),
        (0 <= k < sections.len() && sections[k].0 == Some("settings"@) && forall|j: int|
            0 <= j < k ==> (#[trigger] sections[j]).0 != Some("settings"@)) ==> {
            &&& (key_absent(sections[k].1, "courses"@) ==> r matches Err(ConfigError::MissingCourses))
            &&& (r matches Ok(st) ==> settings_match(st, sections[k].1) && st.courses@.len() > 0)
        },
{
    if forall|j: int| 0 <= j < sections.len() ==> (#[trigger] sections[j]).0 != Some("settings"@) {
        lemma_section_absent(sections, Some("settings"@));
    }
    if 0 <= k < sections.len() && sections[k].0 == Some("settings"@) && forall|j: int|
        0 <= j < k ==> (#[trigger] sections[j]).0 != Some("settings"@) {
        lemma_section_first(sections, Some("settings"@), k);
        if key_absent(sections[k].1, "courses"@) {
            lemma_lookup_absent(sections[k].1, "courses"@);
        }
        if let Ok(st) = r {
            assert(views(st.courses@).len() == st.courses@.len());
        }
    }
}

/// A byte order mark that opens the text is dropped, and nothing else is.
pub proof fn law_bom_dropped(s: Seq<char>)
    ensures
        without_bom(seq!['\u{feff}'] + s) == s,
        (s.len() == 0 || s[0] != '\u{feff}') ==> without_bom(s) == s,
{
    assert((seq!['\u{feff}'] + s).drop_first() =~= s);
}

/// The `courses` setting, trimmed, is taken as the JSON array of strings it
/// holds where it is one (it then starts with `[`), and as a comma- and
/// line-separated list otherwise.
pub proof fn law_course_list_sources(raw: Seq<char>)
    ensures
        (trim(raw).len() > 0 && trim(raw)[0] == '[' && json_string_list(trim(raw)) matches Some(l))
            ==> course_list(raw) == json_string_list(trim(raw)).unwrap(),
        json_string_list(trim(raw)) is None ==> course_list(raw) == listed_courses(trim(raw)),
        (trim(raw).len() == 0 || trim(raw)[0] != '[') ==> course_list(raw) == listed_courses(
            trim(raw),
        ),
{
}

} // verus!
