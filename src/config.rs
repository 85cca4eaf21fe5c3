use vstd::prelude::*;

verus! {

/// Settings of the speech / LLM / speech pipeline.
pub struct Config {
    pub python_env: String,
    pub log_file: String,
    pub enable_logging: bool,
    pub stt_model: String,
    pub stt_lang: String,
    pub llm_model: String,
    pub tts_model: String,
    pub output: String,
    pub audio_file: String,
}

/// The mathematical value of a `Config`.
pub struct ConfigView {
    pub python_env: Seq<char>,
    pub log_file: Seq<char>,
    pub enable_logging: bool,
    pub stt_model: Seq<char>,
    pub stt_lang: Seq<char>,
    pub llm_model: Seq<char>,
    pub tts_model: Seq<char>,
    pub output: Seq<char>,
    pub audio_file: Seq<char>,
}

impl View for Config {
    type V = ConfigView;

    open spec fn view(&self) -> ConfigView {
        ConfigView {
            python_env: self.python_env@,
            log_file: self.log_file@,
            enable_logging: self.enable_logging,
            stt_model: self.stt_model@,
            stt_lang: self.stt_lang@,
            llm_model: self.llm_model@,
            tts_model: self.tts_model@,
            output: self.output@,
            audio_file: self.audio_file@,
        }
    }
}

/// Why a settings text was rejected.
#[derive(Debug, PartialEq, Eq)]
pub enum ConfigError {
    /// `ENABLE_LOGGING` was given a value other than `true` or `false`.
    InvalidBool(String),
}

/// The pieces of `s` between its `\n` characters, in order (one more piece
/// than there are newlines).
pub open spec fn newline_pieces(s: Seq<char>) -> Seq<Seq<char>>
    decreases s.len(),
{
    if s.len() == 0 {
        seq![Seq::empty()]
    } else if s.last() == '\n' {
        newline_pieces(s.drop_last()).push(Seq::empty())
    } else {
        let p = newline_pieces(s.drop_last());
        p.update(p.len() - 1, p.last().push(s.last()))
    }
}

/// A piece that ended at a newline, without the `\r` of a `\r\n` ending.
pub open spec fn strip_cr(piece: Seq<char>) -> Seq<char> {
    if piece.len() > 0 && piece.last() == '\r' {
        piece.drop_last()
    } else {
        piece
    }
}

/// The lines of a text: split at `\n` or `\r\n`, endings removed; the final
/// line ending is optional, and a `\r` not followed by `\n` stays.
pub open spec fn lines_of(s: Seq<char>) -> Seq<Seq<char>> {
    let p = newline_pieces(s);
    let ended = p.drop_last().map_values(|q: Seq<char>| strip_cr(q));
    if p.last().len() == 0 {
        ended
    } else {
        ended.push(p.last())
    }
}

/// The text `s[start..end]` without a final `\r`.
fn line_between<'a>(s: &'a str, start: usize, end: usize) -> (r: &'a str)
    requires
        start <= end <= s@.len(),
    ensures
        r@ == strip_cr(s@.subrange(start as int, end as int)),
{
    if end > start && s.get_char(end - 1) == '\r' {
        let r = s.substring_char(start, end - 1);
        assert(r@ =~= s@.subrange(start as int, end as int).drop_last());
        r
    } else {
        s.substring_char(start, end)
    }
}

/// Splits `s` into its lines.
pub fn split_lines<'a>(s: &'a str) -> (r: Vec<&'a str>)
    ensures
        r@.map_values(|l: &str| l@) == lines_of(s@),
{
    let n = s.unicode_len();
    let mut out: Vec<&'a str> = Vec::new();
    let ghost mut done: Seq<Seq<char>> = Seq::empty();
    let mut start: usize = 0;
    let mut i: usize = 0;
    assert(s@.take(0) =~= Seq::<char>::empty());
    while i < n
        invariant
            n == s@.len(),
            start <= i <= n,
            newline_pieces(s@.take(i as int)) == done.push(s@.subrange(start as int, i as int)),
            out@.map_values(|l: &str| l@) == done.map_values(|q: Seq<char>| strip_cr(q)),
        decreases n - i,
    {
        assert(s@.take(i + 1).drop_last() =~= s@.take(i as int));
        assert(s@.take(i + 1).last() == s@[i as int]);
        if s.get_char(i) == '\n' {
            let line = line_between(s, start, i);
            let ghost before = out@;
            out.push(line);
            proof {
                let piece = s@.subrange(start as int, i as int);
                assert(out@.map_values(|l: &str| l@) =~= before.map_values(|l: &str| l@).push(
                    line@,
                ));
                assert(done.push(piece).map_values(|q: Seq<char>| strip_cr(q)) =~= done.map_values(
                    |q: Seq<char>| strip_cr(q),
                ).push(strip_cr(piece)));
                done = done.push(piece);
                assert(s@.subrange(i + 1, i + 1) =~= Seq::<char>::empty());
            }
            start = i + 1;
        } else {
            proof {
                let p = done.push(s@.subrange(start as int, i as int));
                assert(p.last().push(s@[i as int]) =~= s@.subrange(start as int, i + 1));
                assert(p.update(p.len() - 1, p.last().push(s@[i as int])) =~= done.push(
                    s@.subrange(start as int, i + 1),
                ));
            }
        }
        i = i + 1;
    }
    assert(s@.take(n as int) =~= s@);
    let ghost p = newline_pieces(s@);
    assert(p.drop_last() =~= done);
    if start < n {
        let last = s.substring_char(start, n);
        let ghost before = out@;
        out.push(last);
        assert(out@.map_values(|l: &str| l@) =~= before.map_values(|l: &str| l@).push(last@));
    }
    out
}

/// Whether `key` begins `line`.
pub open spec fn starts_with(line: Seq<char>, key: Seq<char>) -> bool {
    key.len() <= line.len() && line.subrange(0, key.len() as int) == key
}

/// `a..b` is what is left of `s` once every leading and every trailing
/// double quote is removed.
pub open spec fn trimmed_bounds(s: Seq<char>, a: int, b: int) -> bool {
    &&& 0 <= a <= b <= s.len()
    &&& forall|i: int| 0 <= i < a ==> s[i] == '"'
    &&& forall|i: int| b <= i < s.len() ==> s[i] == '"'
    &&& a < b ==> s[a] != '"' && s[b - 1] != '"'
}

/// `s` without its leading and trailing double quotes.
pub open spec fn trim_quotes(s: Seq<char>) -> Seq<char> {
    let ab = choose|ab: (int, int)| trimmed_bounds(s, ab.0, ab.1);
    s.subrange(ab.0, ab.1)
}

/// The value that `line` gives to `key`, where `line` starts with `key`.
pub open spec fn value_of(line: Seq<char>, key: Seq<char>) -> Seq<char> {
    trim_quotes(line.skip(key.len() as int))
}

/// The defaults that settings start from.
pub open spec fn default_view() -> ConfigView {
    ConfigView {
        python_env: Seq::empty(),
        log_file: "pipeline.log"@,
        enable_logging: true,
        stt_model: Seq::empty(),
        stt_lang: Seq::empty(),
        llm_model: Seq::empty(),
        tts_model: Seq::empty(),
        output: Seq::empty(),
        audio_file: Seq::empty(),
    }
}

/// The effect of one line `KEY=value` on the settings: the first key that
/// begins the line takes the value with its quotes trimmed; a line that no
/// key begins changes nothing; a logging flag other than `true` or `false`
/// is an error carrying the trimmed value.
pub open spec fn apply_line(v: ConfigView, line: Seq<char>) -> Result<ConfigView, Seq<char>> {
    if starts_with(line, "STT_MODEL="@) {
        Ok(ConfigView { stt_model: value_of(line, "STT_MODEL="@), ..v })
    } else if starts_with(line, "STT_LANG="@) {
        Ok(ConfigView { stt_lang: value_of(line, "STT_LANG="@), ..v })
    } else if starts_with(line, "LLM_MODEL="@) {
        Ok(ConfigView { llm_model: value_of(line, "LLM_MODEL="@), ..v })
    } else if starts_with(line, "TTS_MODEL="@) {
        Ok(ConfigView { tts_model: value_of(line, "TTS_MODEL="@), ..v })
    } else if starts_with(line, "OUTPUT="@) {
        Ok(ConfigView { output: value_of(line, "OUTPUT="@), ..v })
    } else if starts_with(line, "PYTHON_ENV="@) {
        Ok(ConfigView { python_env: value_of(line, "PYTHON_ENV="@), ..v })
    } else if starts_with(line, "LOG_FILE="@) {
        Ok(ConfigView { log_file: value_of(line, "LOG_FILE="@), ..v })
    } else if starts_with(line, "ENABLE_LOGGING="@) {
        let t = value_of(line, "ENABLE_LOGGING="@);
        if t == "true"@ {
            Ok(ConfigView { enable_logging: true, ..v })
        } else if t == "false"@ {
            Ok(ConfigView { enable_logging: false, ..v })
        } else {
            Err(t)
        }
    } else {
        Ok(v)
    }
}

/// The settings that a sequence of lines gives, line by line from the
/// defaults; the first bad line decides the error.
pub open spec fn settings_from(lines: Seq<Seq<char>>) -> Result<ConfigView, Seq<char>>
    decreases lines.len(),
{
    if lines.len() == 0 {
        Ok(default_view())
    } else {
        match settings_from(lines.drop_last()) {
            Ok(v) => apply_line(v, lines.last()),
            Err(t) => Err(t),
        }
    }
}

/// Any two ways of trimming quotes leave the same text.
pub proof fn lemma_trimmed_bounds_unique(s: Seq<char>, a: int, b: int, c: int, d: int)
    requires
        trimmed_bounds(s, a, b),
        trimmed_bounds(s, c, d),
    ensures
        s.subrange(a, b) == s.subrange(c, d),
{
    if a < b && c < d {
        assert(a == c);
        assert(b == d);
    } else if a < b {
        assert(s[a] != '"');
        assert(a < c || a >= d);
    } else if c < d {
        assert(s[c] != '"');
        assert(c < a || c >= b);
    }
    assert(s.subrange(a, b) =~= s.subrange(c, d));
}

fn has_prefix(line: &str, key: &str) -> (r: bool)
    ensures
        r == starts_with(line@, key@),
{
    let n = line.unicode_len();
    let k = key.unicode_len();
    if k > n {
        return false;
    }
    let mut i: usize = 0;
    while i < k
        invariant
            k <= n,
            n == line@.len(),
            k == key@.len(),
            i <= k,
            forall|j: int| 0 <= j < i ==> line@[j] == key@[j],
        decreases k - i,
    {
        if line.get_char(i) != key.get_char(i) {
            assert(line@.subrange(0, k as int)[i as int] != key@[i as int]);
            return false;
        }
        i = i + 1;
    }
    assert(line@.subrange(0, k as int) =~= key@);
    true
}

fn trim_quotes_of(s: &str) -> (r: String)
    ensures
        r@ == trim_quotes(s@),
{
    let n = s.unicode_len();
    let mut a: usize = 0;
    while a < n && s.get_char(a) == '"'
        invariant
            a <= n,
            n == s@.len(),
            forall|i: int| 0 <= i < a ==> s@[i] == '"',
        decreases n - a,
    {
        a = a + 1;
    }
    let mut b: usize = n;
    while b > a && s.get_char(b - 1) == '"'
        invariant
            a <= b <= n,
            n == s@.len(),
            forall|i: int| 0 <= i < a ==> s@[i] == '"',
            forall|i: int| b <= i < n ==> s@[i] == '"',
            a < n ==> s@[a as int] != '"',
        decreases b - a,
    {
        b = b - 1;
    }
    proof {
        let w: (int, int) = (a as int, b as int);
        assert(trimmed_bounds(s@, w.0, w.1));
        let ab = choose|ab: (int, int)| trimmed_bounds(s@, ab.0, ab.1);
        lemma_trimmed_bounds_unique(s@, a as int, b as int, ab.0, ab.1);
    }
    s.substring_char(a, b).to_owned()
}

/// The value after `key` on `line`, quotes trimmed (`line` starts with `key`).
fn value_after(line: &str, key: &str) -> (r: String)
    requires
        starts_with(line@, key@),
    ensures
        r@ == value_of(line@, key@),
{
    let rest = line.substring_char(key.unicode_len(), line.unicode_len());
    assert(rest@ =~= line@.skip(key@.len() as int));
    trim_quotes_of(rest)
}

impl Config {
    /// The settings before any line is read: logging on, to `pipeline.log`,
    /// everything else empty.
    pub fn defaults() -> (r: Config)
        ensures
            r@ == default_view(),
    {
        Config {
            python_env: String::new(),
            log_file: "pipeline.log".to_owned(),
            enable_logging: true,
            stt_model: String::new(),
            stt_lang: String::new(),
            llm_model: String::new(),
            tts_model: String::new(),
            output: String::new(),
            audio_file: String::new(),
        }
    }

    /// Applies one `KEY=value` line to these settings.
    pub fn apply_line(&mut self, line: &str) -> (r: Result<(), ConfigError>)
        ensures
            match apply_line(old(self)@, line@) {
                Ok(v) => r is Ok && final(self)@ == v,
                Err(t) => r matches Err(ConfigError::InvalidBool(s)) && s@ == t,
            },
    {
        if has_prefix(line, "STT_MODEL=") {
            self.stt_model = value_after(line, "STT_MODEL=");
        } else if has_prefix(line, "STT_LANG=") {
            self.stt_lang = value_after(line, "STT_LANG=");
        } else if has_prefix(line, "LLM_MODEL=") {
            self.llm_model = value_after(line, "LLM_MODEL=");
        } else if has_prefix(line, "TTS_MODEL=") {
            self.tts_model = value_after(line, "TTS_MODEL=");
        } else if has_prefix(line, "OUTPUT=") {
            self.output = value_after(line, "OUTPUT=");
        } else if has_prefix(line, "PYTHON_ENV=") {
            self.python_env = value_after(line, "PYTHON_ENV=");
        } else if has_prefix(line, "LOG_FILE=") {
            self.log_file = value_after(line, "LOG_FILE=");
        } else if has_prefix(line, "ENABLE_LOGGING=") {
            let t = value_after(line, "ENABLE_LOGGING=");
            if t.eq(&"true".to_owned()) {
                self.enable_logging = true;
            } else if t.eq(&"false".to_owned()) {
                self.enable_logging = false;
            } else {
                return Err(ConfigError::InvalidBool(t));
            }
        }
        Ok(())
    }

    /// The settings that `lines` give, applied in order from the defaults.
    pub fn from_lines(lines: &Vec<&str>) -> (r: Result<Config, ConfigError>)
        ensures
            match settings_from(lines@.map_values(|l: &str| l@)) {
                Ok(v) => r matches Ok(c) && c@ == v,
                Err(t) => r matches Err(ConfigError::InvalidBool(s)) && s@ == t,
            },
    {
        let ghost all = lines@.map_values(|l: &str| l@);
        let mut config = Config::defaults();
        let mut i: usize = 0;
        while i < lines.len()
            invariant
                i <= lines.len(),
                all == lines@.map_values(|l: &str| l@),
                settings_from(all.take(i as int)) == Ok::<ConfigView, Seq<char>>(config@),
            decreases lines.len() - i,
        {
            proof {
                assert(all.take(i + 1).drop_last() =~= all.take(i as int));
            }
            match config.apply_line(lines[i]) {
                Ok(()) => {},
                Err(e) => {
                    proof {
                        assert(all.take(i as int + 1) =~= all.take(i as int).push(all[i as int]));
                        lemma_settings_err_sticks(all, i as int + 1);
                    }
                    return Err(e);
                },
            }
            i = i + 1;
        }
        assert(all.take(i as int) =~= all);
        Ok(config)
    }

    /// Parses a settings text of `KEY=value` lines.
    pub fn parse(content: &str) -> (r: Result<Config, ConfigError>)
        ensures
            match settings_from(lines_of(content@)) {
                Ok(v) => r matches Ok(c) && c@ == v,
                Err(t) => r matches Err(ConfigError::InvalidBool(s)) && s@ == t,
            },
    {
        let lines = split_lines(content);
        Config::from_lines(&lines)
    }
}

/// Once some prefix of the lines is rejected, the whole is rejected with the
/// same value.
pub proof fn lemma_settings_err_sticks(lines: Seq<Seq<char>>, k: int)
    requires
        0 <= k <= lines.len(),
        settings_from(lines.take(k)) is Err,
    ensures
        settings_from(lines) == settings_from(lines.take(k)),
    decreases lines.len() - k,
{
    if k < lines.len() {
        assert(lines.take(k + 1).drop_last() =~= lines.take(k));
        lemma_settings_err_sticks(lines, k + 1);
    } else {
        assert(lines.take(k) =~= lines);
    }
}

/// The settings held by a context that was given them at start-up.
pub fn get_config(slot: &Option<Config>) -> (r: &Config)
    requires
        slot.is_some(),
    ensures
        *r == slot.unwrap(),
{
    slot.as_ref().unwrap()
}

} // verus!
