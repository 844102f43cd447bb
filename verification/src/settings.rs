//! Startup defaults, stored as key=value lines next to the bookmarks.

use crate::text::{
    signed_decimal, chars_of, decimal, lines, parse_i32, push_decimal, read_i32, same_range, split_lines,
    split_once, texts, trim, trim_range,
};
use crate::names::{join_path, path_joined};
use vstd::prelude::*;
use vstd::string::StringExecFns;

verus! {

#[derive(Clone, Copy, Debug, PartialEq, Eq, Structural)]
pub struct Settings {
    pub dark: bool,
    pub fit: i32,
    pub spread: bool,
    pub rtl: bool,
    pub rail: bool,
    pub strip: bool,
    pub resume: bool,
}

/// Dark, fit the whole page, single pages, left to right, thumbnail rail on,
/// no scrolling strip, resume where you left off.
pub open spec fn default_settings() -> Settings {
    Settings { dark: true, fit: 0, spread: false, rtl: false, rail: true, strip: false, resume: true }
}

impl Default for Settings {
    fn default() -> (s: Settings)
        ensures
            s == default_settings(),
    {
        Settings {
            dark: true,
            fit: 0,
            spread: false,
            rtl: false,
            rail: true,
            strip: false,
            resume: true,
        }
    }
}

/// `v.clamp(lo, hi)`.
pub open spec fn clamped(v: i32, lo: i32, hi: i32) -> i32 {
    if v < lo {
        lo
    } else if v > hi {
        hi
    } else {
        v
    }
}

/// One `key=value` line applied to the settings read so far. Keys and values
/// are trimmed; a flag is on only for the value `true`; `fit` is a number
/// clamped to 0..=3 (0 when it does not read as one); anything else is ignored.
pub open spec fn apply_line(s: Settings, line: Seq<char>) -> Settings {
    match split_once(line, '=') {
        None => s,
        Some(kv) => assign(s, trim(kv.0), trim(kv.1)),
    }
}

/// A trimmed key and value applied to the settings.
pub open spec fn assign(s: Settings, key: Seq<char>, value: Seq<char>) -> Settings {
    let on = value == "true"@;
    if key == "dark"@ {
        Settings { dark: on, ..s }
    } else if key == "fit"@ {
        Settings {
            fit: clamped(
                match parse_i32(value) {
                    Some(v) => v,
                    None => 0,
                },
                0,
                3,
            ),
            ..s
        }
    } else if key == "spread"@ {
        Settings { spread: on, ..s }
    } else if key == "rtl"@ {
        Settings { rtl: on, ..s }
    } else if key == "rail"@ {
        Settings { rail: on, ..s }
    } else if key == "strip"@ {
        Settings { strip: on, ..s }
    } else if key == "resume"@ {
        Settings { resume: on, ..s }
    } else {
        s
    }
}

pub open spec fn apply_lines(s: Settings, ls: Seq<Seq<char>>) -> Settings
    decreases ls.len(),
{
    if ls.len() == 0 {
        s
    } else {
        apply_lines(apply_line(s, ls[0]), ls.drop_first())
    }
}

/// The settings a file's text gives, starting from the defaults.
pub open spec fn settings_from(text: Seq<char>) -> Settings {
    apply_lines(default_settings(), lines(text))
}

/// Reads the settings file's text.
pub fn parse_settings(text: &str) -> (s: Settings)
    ensures
        s == settings_from(text@),
{
    let cs = chars_of(text);
    let ranges = split_lines(&cs);
    let ghost ls = lines(cs@);
    let k_dark = chars_of("dark");
    let k_fit = chars_of("fit");
    let k_spread = chars_of("spread");
    let k_rtl = chars_of("rtl");
    let k_rail = chars_of("rail");
    let k_strip = chars_of("strip");
    let k_resume = chars_of("resume");
    let v_true = chars_of("true");
    let mut s = Settings::default();
    let mut k: usize = 0;
    assert(ls.skip(0) =~= ls);
    while k < ranges.len()
        invariant
            k <= ranges@.len(),
            cs@ == text@,
            texts(cs@, ranges@) == ls,
            ls == lines(cs@),
            forall|q: int| 0 <= q < ranges@.len() ==> #[trigger] ranges@[q].0 <= ranges@[q].1 <= cs@.len(),
            apply_lines(default_settings(), ls) == apply_lines(s, ls.skip(k as int)),
            k_dark@ == "dark"@,
            k_fit@ == "fit"@,
            k_spread@ == "spread"@,
            k_rtl@ == "rtl"@,
            k_rail@ == "rail"@,
            k_strip@ == "strip"@,
            k_resume@ == "resume"@,
            v_true@ == "true"@,
        decreases ranges@.len() - k,
    {
        let (a, b) = ranges[k];
        let ghost line = cs@.subrange(a as int, b as int);
        assert(ls[k as int] == line);
        assert(ls.skip(k as int).drop_first() =~= ls.skip(k + 1));
        assert(ls.skip(k as int)[0] == line);
        match crate::text::find_first_in(&cs, a, b, '=') {
            None => {},
            Some(e) => {
                assert(line.take(e - a) =~= cs@.subrange(a as int, e as int));
                assert(line.skip(e - a + 1) =~= cs@.subrange(e + 1, b as int));
                let (ka, kb) = trim_range(&cs, a, e);
                let (va, vb) = trim_range(&cs, e + 1, b);
                let on = same_range(&cs, va, vb, &v_true);
                if same_range(&cs, ka, kb, &k_dark) {
                    s.dark = on;
                } else if same_range(&cs, ka, kb, &k_fit) {
                    let v = match read_i32(&cs, va, vb) {
                        Some(v) => v,
                        None => 0,
                    };
                    s.fit = if v < 0 {
                        0
                    } else if v > 3 {
                        3
                    } else {
                        v
                    };
                } else if same_range(&cs, ka, kb, &k_spread) {
                    s.spread = on;
                } else if same_range(&cs, ka, kb, &k_rtl) {
                    s.rtl = on;
                } else if same_range(&cs, ka, kb, &k_rail) {
                    s.rail = on;
                } else if same_range(&cs, ka, kb, &k_strip) {
                    s.strip = on;
                } else if same_range(&cs, ka, kb, &k_resume) {
                    s.resume = on;
                }
            },
        }
        k = k + 1;
    }
    assert(ls.skip(k as int) =~= Seq::<Seq<char>>::empty());
    s
}

} // verus!

verus! {

/// How a flag is written.
pub open spec fn flag(b: bool) -> Seq<char> {
    if b {
        "true"@
    } else {
        "false"@
    }
}

/// The lines of the settings file for `s`, each `key=value`.
pub open spec fn settings_lines(s: Settings) -> Seq<Seq<char>> {
    seq![
        "dark"@ + seq!['='] + flag(s.dark),
        "fit"@ + seq!['='] + signed_decimal(s.fit),
        "spread"@ + seq!['='] + flag(s.spread),
        "rtl"@ + seq!['='] + flag(s.rtl),
        "rail"@ + seq!['='] + flag(s.rail),
        "resume"@ + seq!['='] + flag(s.resume),
        "strip"@ + seq!['='] + flag(s.strip),
    ]
}

/// The settings file's text for `s`: its lines, each ended by '\n'.
pub open spec fn settings_text(s: Settings) -> Seq<char> {
    crate::text::line_block(settings_lines(s))
}

/// One `key=value` line.
pub open spec fn setting_line(key: Seq<char>, value: Seq<char>) -> Seq<char> {
    key + seq!['='] + value + seq!['\n']
}

fn push_flag_line(out: &mut String, key: &str, b: bool)
    ensures
        final(out)@ == old(out)@ + (key@ + seq!['='] + flag(b)) + seq!['\n'],
{
    let ghost start = out@;
    out.append(key);
    crate::text::push_char(out, '=');
    if b {
        out.append("true");
    } else {
        out.append("false");
    }
    crate::text::push_char(out, '\n');
    assert(out@ =~= start + (key@ + seq!['='] + flag(b)) + seq!['\n']);
}

fn push_number_line(out: &mut String, key: &str, v: i32)
    ensures
        final(out)@ == old(out)@ + (key@ + seq!['='] + signed_decimal(v)) + seq!['\n'],
{
    let ghost start = out@;
    out.append(key);
    crate::text::push_char(out, '=');
    if v < 0 {
        crate::text::push_char(out, '-');
        let m: i64 = 0 - (v as i64);
        push_decimal(out, m as u128);
    } else {
        push_decimal(out, v as u128);
    }
    crate::text::push_char(out, '\n');
    assert(out@ =~= start + (key@ + seq!['='] + signed_decimal(v)) + seq!['\n']);
}

/// The text the settings are saved as.
pub fn render_settings(s: &Settings) -> (r: String)
    ensures
        r@ == settings_text(*s),
{
    let ghost hs = settings_lines(*s);
    let mut out = String::new();
    assert(crate::text::line_block(hs.take(0)) =~= Seq::<char>::empty());
    assert(out@ == crate::text::line_block(hs.take(0)));
    push_flag_line(&mut out, "dark", s.dark);
    proof {
        lemma_block_step(hs, 0);
        assert(out@ == crate::text::line_block(hs.take(1)));
    }
    push_number_line(&mut out, "fit", s.fit);
    proof {
        lemma_block_step(hs, 1);
        assert(out@ == crate::text::line_block(hs.take(2)));
    }
    push_flag_line(&mut out, "spread", s.spread);
    proof {
        lemma_block_step(hs, 2);
        assert(out@ == crate::text::line_block(hs.take(3)));
    }
    push_flag_line(&mut out, "rtl", s.rtl);
    proof {
        lemma_block_step(hs, 3);
        assert(out@ == crate::text::line_block(hs.take(4)));
    }
    push_flag_line(&mut out, "rail", s.rail);
    proof {
        lemma_block_step(hs, 4);
        assert(out@ == crate::text::line_block(hs.take(5)));
    }
    push_flag_line(&mut out, "resume", s.resume);
    proof {
        lemma_block_step(hs, 5);
        assert(out@ == crate::text::line_block(hs.take(6)));
    }
    push_flag_line(&mut out, "strip", s.strip);
    proof {
        lemma_block_step(hs, 6);
        assert(out@ == crate::text::line_block(hs.take(7)));
    }
    assert(hs.take(7) =~= hs);
    out
}

proof fn lemma_block_step(hs: Seq<Seq<char>>, i: int)
    requires
        0 <= i < hs.len(),
    ensures
        crate::text::line_block(hs.take(i + 1)) == crate::text::line_block(hs.take(i)) + hs[i] + seq!['\n'],
{
    assert(hs.take(i + 1).drop_last() =~= hs.take(i));
}

} // verus!

verus! {

proof fn lemma_line_parts(key: Seq<char>, value: Seq<char>)
    requires
        key.len() > 0,
        value.len() > 0,
        forall|i: int| 0 <= i < key.len() ==> #[trigger] key[i] != '=' && key[i] != '\n',
        forall|i: int| 0 <= i < value.len() ==> #[trigger] value[i] != '\n',
        !crate::text::is_white(key[0]),
        !crate::text::is_white(key.last()),
        !crate::text::is_white(value[0]),
        !crate::text::is_white(value.last()),
        value.last() != '\r',
    ensures
        crate::text::strip_cr(key + seq!['='] + value) == key + seq!['='] + value,
        forall|i: int|
            0 <= i < (key + seq!['='] + value).len() ==> #[trigger] (key + seq!['='] + value)[i] != '\n',
        split_once(key + seq!['='] + value, '=') == Some((key, value)),
        trim(key) == key,
        trim(value) == value,
{
    let h = key + seq!['='] + value;
    assert(h.last() == value.last());
    assert forall|i: int| 0 <= i < h.len() implies #[trigger] h[i] != '\n' by {
        if i < key.len() {
            assert(h[i] == key[i]);
        } else if i > key.len() {
            assert(h[i] == value[i - key.len() - 1]);
        }
    }
    crate::text::lemma_first_index_after(key, '=', value);
    assert(h.take(key.len() as int) =~= key);
    assert(h.skip(key.len() as int + 1) =~= value);
    assert(crate::text::lead_white(key) == 0);
    assert(key.skip(0) =~= key);
    assert(crate::text::trail_white(key) == 0);
    assert(key.take(key.len() as int) =~= key);
    assert(crate::text::lead_white(value) == 0);
    assert(value.skip(0) =~= value);
    assert(crate::text::trail_white(value) == 0);
    assert(value.take(value.len() as int) =~= value);
}

proof fn lemma_flag_parts(b: bool)
    ensures
        flag(b).len() > 0,
        forall|i: int| 0 <= i < flag(b).len() ==> #[trigger] flag(b)[i] != '\n',
        !crate::text::is_white(flag(b)[0]),
        !crate::text::is_white(flag(b).last()),
        flag(b).last() != '\r',
        (flag(b) == "true"@) == b,
{
    reveal_strlit("true");
    reveal_strlit("false");
    if !b {
        assert(flag(b).len() != "true"@.len());
    }
}

proof fn lemma_key_parts(key: Seq<char>)
    requires
        key == "dark"@ || key == "fit"@ || key == "spread"@ || key == "rtl"@ || key == "rail"@ || key
            == "resume"@ || key == "strip"@,
    ensures
        key.len() > 0,
        forall|i: int| 0 <= i < key.len() ==> #[trigger] key[i] != '=' && key[i] != '\n',
        !crate::text::is_white(key[0]),
        !crate::text::is_white(key.last()),
{
    reveal_strlit("dark");
    reveal_strlit("fit");
    reveal_strlit("spread");
    reveal_strlit("rtl");
    reveal_strlit("rail");
    reveal_strlit("resume");
    reveal_strlit("strip");
}

} // verus!

verus! {

proof fn lemma_fit_parts(f: i32)
    requires
        0 <= f <= 3,
    ensures
        signed_decimal(f) == decimal(f as nat),
        decimal(f as nat).len() > 0,
        forall|i: int| 0 <= i < decimal(f as nat).len() ==> #[trigger] decimal(f as nat)[i] != '\n',
        !crate::text::is_white(decimal(f as nat)[0]),
        !crate::text::is_white(decimal(f as nat).last()),
        decimal(f as nat).last() != '\r',
        parse_i32(decimal(f as nat)) == Some(f),
{
    crate::text::lemma_decimal_reads_back(f as nat);
    let d = decimal(f as nat);
    assert(d.len() == 1);
    assert(crate::text::is_digit_char(d[0]));
}

proof fn lemma_no_newline(key: Seq<char>, value: Seq<char>)
    requires
        forall|i: int| 0 <= i < key.len() ==> #[trigger] key[i] != '\n',
        forall|i: int| 0 <= i < value.len() ==> #[trigger] value[i] != '\n',
    ensures
        forall|i: int|
            0 <= i < (key + seq!['='] + value).len() ==> #[trigger] (key + seq!['='] + value)[i] != '\n',
{
    let h = key + seq!['='] + value;
    assert forall|i: int| 0 <= i < h.len() implies #[trigger] h[i] != '\n' by {
        if i < key.len() {
            assert(h[i] == key[i]);
        } else if i > key.len() {
            assert(h[i] == value[i - key.len() - 1]);
        }
    }
}

/// The lines of the saved text.
/// The lines of the saved text.
proof fn lemma_settings_lines(s: Settings)
    requires
        0 <= s.fit <= 3,
    ensures
        lines(settings_text(s)) == settings_lines(s),
{
    let hs = settings_lines(s);
    lemma_key_parts("dark"@);
    lemma_key_parts("fit"@);
    lemma_key_parts("spread"@);
    lemma_key_parts("rtl"@);
    lemma_key_parts("rail"@);
    lemma_key_parts("resume"@);
    lemma_key_parts("strip"@);
    lemma_flag_parts(s.dark);
    lemma_flag_parts(s.spread);
    lemma_flag_parts(s.rtl);
    lemma_flag_parts(s.rail);
    lemma_flag_parts(s.resume);
    lemma_flag_parts(s.strip);
    lemma_fit_parts(s.fit);
    assert forall|k: int, i: int| 0 <= k < hs.len() && 0 <= i < hs[k].len() implies #[trigger] hs[k][i]
        != '\n' by {
        if k == 0 { lemma_no_newline("dark"@, flag(s.dark)); }
        else if k == 1 { lemma_no_newline("fit"@, signed_decimal(s.fit)); }
        else if k == 2 { lemma_no_newline("spread"@, flag(s.spread)); }
        else if k == 3 { lemma_no_newline("rtl"@, flag(s.rtl)); }
        else if k == 4 { lemma_no_newline("rail"@, flag(s.rail)); }
        else if k == 5 { lemma_no_newline("resume"@, flag(s.resume)); }
        else { lemma_no_newline("strip"@, flag(s.strip)); }
    }
    crate::text::lemma_lines_of_block(hs);
    assert forall|k: int| 0 <= k < hs.len() implies #[trigger] crate::text::strip_cr(hs[k]) == hs[k] by {
        if k == 1 {
            assert(hs[k].last() == signed_decimal(s.fit).last());
        } else if k == 0 {
            assert(hs[k].last() == flag(s.dark).last());
        } else if k == 2 {
            assert(hs[k].last() == flag(s.spread).last());
        } else if k == 3 {
            assert(hs[k].last() == flag(s.rtl).last());
        } else if k == 4 {
            assert(hs[k].last() == flag(s.rail).last());
        } else if k == 5 {
            assert(hs[k].last() == flag(s.resume).last());
        } else {
            assert(hs[k].last() == flag(s.strip).last());
        }
    }
    assert(hs.map_values(|l: Seq<char>| crate::text::strip_cr(l)) =~= hs);
}

/// A line the program writes applies its value to its key.
proof fn lemma_apply_written(d: Settings, key: Seq<char>, value: Seq<char>)
    requires
        key == "dark"@ || key == "fit"@ || key == "spread"@ || key == "rtl"@ || key == "rail"@ || key
            == "resume"@ || key == "strip"@,
        value.len() > 0,
        forall|i: int| 0 <= i < value.len() ==> #[trigger] value[i] != '\n',
        !crate::text::is_white(value[0]),
        !crate::text::is_white(value.last()),
        value.last() != '\r',
    ensures
        apply_line(d, key + seq!['='] + value) == assign(d, key, value),
{
    lemma_key_parts(key);
    lemma_line_parts(key, value);
}

proof fn lemma_apply_seven(d: Settings, ls: Seq<Seq<char>>)
    requires
        ls.len() == 7,
    ensures
        apply_lines(d, ls) == apply_line(
            apply_line(
                apply_line(
                    apply_line(apply_line(apply_line(apply_line(d, ls[0]), ls[1]), ls[2]), ls[3]),
                    ls[4],
                ),
                ls[5],
            ),
            ls[6],
        ),
{
    reveal_with_fuel(apply_lines, 8);
    assert(ls.drop_first()[0] == ls[1]);
    assert(ls.drop_first().drop_first()[0] == ls[2]);
    assert(ls.drop_first().drop_first().drop_first()[0] == ls[3]);
    assert(ls.drop_first().drop_first().drop_first().drop_first()[0] == ls[4]);
    assert(ls.drop_first().drop_first().drop_first().drop_first().drop_first()[0] == ls[5]);
    assert(ls.drop_first().drop_first().drop_first().drop_first().drop_first().drop_first()[0] == ls[6]);
    assert(ls.drop_first().drop_first().drop_first().drop_first().drop_first().drop_first().drop_first()
        =~= Seq::<Seq<char>>::empty());
}

/// Saving settings and loading them back gives the same settings, for every
/// fit mode the reader has (0 to 3; others are clamped on loading).
pub proof fn settings_read_back(s: Settings)
    requires
        0 <= s.fit <= 3,
    ensures
        settings_from(settings_text(s)) == s,
{
    reveal_strlit("dark");
    reveal_strlit("fit");
    reveal_strlit("spread");
    reveal_strlit("rtl");
    reveal_strlit("rail");
    reveal_strlit("resume");
    reveal_strlit("strip");
    lemma_settings_lines(s);
    let ls = settings_lines(s);
    lemma_apply_seven(default_settings(), ls);
    lemma_flag_parts(s.dark);
    lemma_flag_parts(s.spread);
    lemma_flag_parts(s.rtl);
    lemma_flag_parts(s.rail);
    lemma_flag_parts(s.resume);
    lemma_flag_parts(s.strip);
    lemma_fit_parts(s.fit);
    let d0 = default_settings();
    lemma_apply_written(d0, "dark"@, flag(s.dark));
    let d1 = assign(d0, "dark"@, flag(s.dark));
    lemma_apply_written(d1, "fit"@, signed_decimal(s.fit));
    let d2 = assign(d1, "fit"@, signed_decimal(s.fit));
    lemma_apply_written(d2, "spread"@, flag(s.spread));
    let d3 = assign(d2, "spread"@, flag(s.spread));
    lemma_apply_written(d3, "rtl"@, flag(s.rtl));
    let d4 = assign(d3, "rtl"@, flag(s.rtl));
    lemma_apply_written(d4, "rail"@, flag(s.rail));
    let d5 = assign(d4, "rail"@, flag(s.rail));
    lemma_apply_written(d5, "resume"@, flag(s.resume));
    let d6 = assign(d5, "resume"@, flag(s.resume));
    lemma_apply_written(d6, "strip"@, flag(s.strip));
    let d7 = assign(d6, "strip"@, flag(s.strip));
    assert(d7 == s);
}

} // verus!

verus! {

/// Where per-user data goes, from the environment: `APPDATA` (Windows), else
/// `XDG_DATA_HOME`, else under `HOME` (Application Support on macOS,
/// .local/share elsewhere); nowhere when none of them is set.
pub open spec fn data_dir_of(
    appdata: Option<Seq<char>>,
    xdg: Option<Seq<char>>,
    home: Option<Seq<char>>,
    macos: bool,
) -> Option<Seq<char>> {
    match appdata {
        Some(a) => Some(a),
        None => match xdg {
            Some(x) => Some(x),
            None => match home {
                Some(h) => Some(
                    if macos {
                        path_joined(h, "Library/Application Support"@)
                    } else {
                        path_joined(h, ".local/share"@)
                    },
                ),
                None => None,
            },
        },
    }
}

pub fn data_dir(appdata: Option<String>, xdg: Option<String>, home: Option<String>, macos: bool) -> (r:
    Option<String>)
    ensures
        match r {
            Some(d) => data_dir_of(
                match appdata {
                    Some(a) => Some(a@),
                    None => None,
                },
                match xdg {
                    Some(x) => Some(x@),
                    None => None,
                },
                match home {
                    Some(h) => Some(h@),
                    None => None,
                },
                macos,
            ) == Some(d@),
            None => appdata is None && xdg is None && home is None,
        },
{
    if let Some(a) = appdata {
        return Some(a);
    }
    if let Some(x) = xdg {
        return Some(x);
    }
    match home {
        Some(h) => Some(
            if macos {
                join_path(h.as_str(), "Library/Application Support")
            } else {
                join_path(h.as_str(), ".local/share")
            },
        ),
        None => None,
    }
}

/// The folder Mangix keeps its files in, under the data directory.
pub fn app_dir(data: &str) -> (r: String)
    ensures
        r@ == path_joined(data@, "mangix"@),
{
    join_path(data, "mangix")
}

/// The settings file in the app folder.
pub fn settings_file(app: &str) -> (r: String)
    ensures
        r@ == path_joined(app@, "settings.conf"@),
{
    join_path(app, "settings.conf")
}

/// The bookmark file in the app folder.
pub fn progress_file(app: &str) -> (r: String)
    ensures
        r@ == path_joined(app@, "progress.tsv"@),
{
    join_path(app, "progress.tsv")
}

} // verus!
