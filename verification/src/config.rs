//! The `game.cfg` reader: an INI-like text of `[Section]` headers and
//! `key=value` lines, of which the `[HUD]` `GlobalScale` and the `[General]`
//! `Width`, `Height` and `WindowMode` settings are kept.
use vstd::prelude::*;
use crate::text::{
    chars_of, parse_u32_range, parse_u32_spec, range_eq_str, trim, trim_end, trim_range, trim_start,
};

verus! {

/// The settings read from a game configuration file.
///
/// `GlobalScale` is a floating-point setting: each value found for it is kept
/// as text, in the order of the file, and the last one that reads as a number wins.
pub struct GameSettings {
    pub hud_scale_texts: Vec<String>,
    pub game_width: u32,
    pub game_height: u32,
    pub window_mode: u32,
}

/// The mathematical model of [`GameSettings`].
pub struct SettingsModel {
    pub hud_scale_texts: Seq<Seq<char>>,
    pub game_width: u32,
    pub game_height: u32,
    pub window_mode: u32,
}

impl View for GameSettings {
    type V = SettingsModel;

    open spec fn view(&self) -> SettingsModel {
        SettingsModel {
            hud_scale_texts: self.hud_scale_texts@.map_values(|t: String| t@),
            game_width: self.game_width,
            game_height: self.game_height,
            window_mode: self.window_mode,
        }
    }
}

/// The settings in force when the file says nothing: a 1920x1080 game in
/// window mode 1, and no scale value.
pub open spec fn default_settings() -> SettingsModel {
    SettingsModel {
        hud_scale_texts: Seq::empty(),
        game_width: 1920,
        game_height: 1080,
        window_mode: 1,
    }
}

impl Default for GameSettings {
    fn default() -> (s: Self)
        ensures
            s@ == default_settings(),
    {
        let s = GameSettings {
            hud_scale_texts: Vec::new(),
            game_width: 1920,
            game_height: 1080,
            window_mode: 1,
        };
        assert(s@.hud_scale_texts =~= Seq::<Seq<char>>::empty());
        s
    }
}

/// The pieces of `s` between newline characters (always at least one piece).
pub open spec fn split_lines(s: Seq<char>) -> Seq<Seq<char>>
    decreases s.len(),
{
    if s.len() == 0 {
        seq![Seq::empty()]
    } else {
        let prev = split_lines(s.drop_last());
        if s.last() == '\n' {
            prev.push(Seq::empty())
        } else {
            prev.update(prev.len() - 1, prev.last().push(s.last()))
        }
    }
}

/// The index of the first `c` in `s`.
pub open spec fn first_index_of(s: Seq<char>, c: char) -> Option<int>
    decreases s.len(),
{
    if s.len() == 0 {
        None
    } else if s[0] == c {
        Some(0)
    } else {
        match first_index_of(s.drop_first(), c) {
            Some(i) => Some(i + 1),
            None => None,
        }
    }
}

/// The reader's state between lines: the current section and the settings so far.
pub struct ParseState {
    pub section: Seq<char>,
    pub settings: SettingsModel,
}

pub open spec fn initial_state() -> ParseState {
    ParseState { section: Seq::empty(), settings: default_settings() }
}

/// The effect of `key = value` in `section` on the settings.
pub open spec fn apply_setting(
    cfg: SettingsModel,
    section: Seq<char>,
    key: Seq<char>,
    value: Seq<char>,
) -> SettingsModel {
    if section == "HUD"@ {
        if key == "GlobalScale"@ {
            SettingsModel { hud_scale_texts: cfg.hud_scale_texts.push(value), ..cfg }
        } else {
            cfg
        }
    } else if section == "General"@ {
        if key == "Width"@ {
            match parse_u32_spec(value) {
                Some(n) => SettingsModel { game_width: n, ..cfg },
                None => cfg,
            }
        } else if key == "Height"@ {
            match parse_u32_spec(value) {
                Some(n) => SettingsModel { game_height: n, ..cfg },
                None => cfg,
            }
        } else if key == "WindowMode"@ {
            match parse_u32_spec(value) {
                Some(n) => SettingsModel { window_mode: n, ..cfg },
                None => cfg,
            }
        } else {
            cfg
        }
    } else {
        cfg
    }
}

/// The effect of one line: a trimmed `[name]` opens section `name`; otherwise
/// a line with an `=` is split at its first `=` into a trimmed key and value.
pub open spec fn apply_line(st: ParseState, line: Seq<char>) -> ParseState {
    let t = trim(line);
    if t.len() > 0 && t[0] == '[' && t.last() == ']' {
        ParseState { section: t.subrange(1, t.len() - 1), settings: st.settings }
    } else {
        match first_index_of(t, '=') {
            Some(e) => ParseState {
                section: st.section,
                settings: apply_setting(
                    st.settings,
                    st.section,
                    trim(t.take(e)),
                    trim(t.skip(e + 1)),
                ),
            },
            None => st,
        }
    }
}

/// The state after reading `lines` in order.
pub open spec fn apply_lines(lines: Seq<Seq<char>>) -> ParseState
    decreases lines.len(),
{
    if lines.len() == 0 {
        initial_state()
    } else {
        apply_line(apply_lines(lines.drop_last()), lines.last())
    }
}

/// The settings that a configuration file with text `s` sets.
pub open spec fn parse_config_spec(s: Seq<char>) -> SettingsModel {
    apply_lines(split_lines(s)).settings
}

/// The index of the first `c` in `v[a..b]`, counted from `a`.
fn find_char(v: &Vec<char>, a: usize, b: usize, c: char) -> (r: Option<usize>)
    requires
        a <= b <= v@.len(),
    ensures
        match r {
            Some(e) => a <= e < b && first_index_of(v@.subrange(a as int, b as int), c) == Some(
                e - a,
            ),
            None => first_index_of(v@.subrange(a as int, b as int), c) is None,
        },
{
    let mut i = a;
    while i < b
        invariant
            a <= i <= b <= v@.len(),
            first_index_of(v@.subrange(a as int, b as int), c) == (match first_index_of(
                v@.subrange(i as int, b as int),
                c,
            ) {
                Some(k) => Some(k + (i - a)),
                None => None::<int>,
            }),
        decreases b - i,
    {
        if v[i] == c {
            return Some(i);
        }
        assert(v@.subrange(i as int, b as int).drop_first() =~= v@.subrange(i + 1, b as int));
        i += 1;
    }
    None
}

/// Updates the settings for `key = value` (given as ranges of `v`) in the section `v[sa..sb]`.
fn apply_setting_exec(
    contents: &str,
    v: &Vec<char>,
    sa: usize,
    sb: usize,
    ka: usize,
    kb: usize,
    va: usize,
    vb: usize,
    cfg: &mut GameSettings,
)
    requires
        v@ == contents@,
        sa <= sb <= v@.len(),
        ka <= kb <= v@.len(),
        va <= vb <= v@.len(),
    ensures
        final(cfg)@ == apply_setting(
            old(cfg)@,
            v@.subrange(sa as int, sb as int),
            v@.subrange(ka as int, kb as int),
            v@.subrange(va as int, vb as int),
        ),
{
    proof {
        reveal_strlit("HUD");
        reveal_strlit("GlobalScale");
        reveal_strlit("General");
        reveal_strlit("Width");
        reveal_strlit("Height");
        reveal_strlit("WindowMode");
    }
    if range_eq_str(v, sa, sb, "HUD") {
        if range_eq_str(v, ka, kb, "GlobalScale") {
            let text = contents.substring_char(va, vb);
            let owned = String::from_str(text);
            let ghost before = cfg.hud_scale_texts@;
            cfg.hud_scale_texts.push(owned);
            assert(cfg.hud_scale_texts@.map_values(|t: String| t@) =~= before.map_values(
                |t: String| t@,
            ).push(v@.subrange(va as int, vb as int)));
        }
    } else if range_eq_str(v, sa, sb, "General") {
        if range_eq_str(v, ka, kb, "Width") {
            if let Some(n) = parse_u32_range(v, va, vb) {
                cfg.game_width = n;
            }
        } else if range_eq_str(v, ka, kb, "Height") {
            if let Some(n) = parse_u32_range(v, va, vb) {
                cfg.game_height = n;
            }
        } else if range_eq_str(v, ka, kb, "WindowMode") {
            if let Some(n) = parse_u32_range(v, va, vb) {
                cfg.window_mode = n;
            }
        }
    }
}

/// Applies the line `v[a..b]` to the state: the section `v[section.0..section.1]` and `cfg`.
fn apply_line_exec(
    contents: &str,
    v: &Vec<char>,
    a: usize,
    b: usize,
    section: &mut (usize, usize),
    cfg: &mut GameSettings,
)
    requires
        v@ == contents@,
        a <= b <= v@.len(),
        old(section).0 <= old(section).1 <= v@.len(),
    ensures
        final(section).0 <= final(section).1 <= v@.len(),
        (ParseState {
            section: v@.subrange(final(section).0 as int, final(section).1 as int),
            settings: final(cfg)@,
        }) == apply_line(
            ParseState {
                section: v@.subrange(old(section).0 as int, old(section).1 as int),
                settings: old(cfg)@,
            },
            v@.subrange(a as int, b as int),
        ),
{
    let ghost t = trim(v@.subrange(a as int, b as int));
    let (ta, tb) = trim_range(v, a, b);
    assert(t == v@.subrange(ta as int, tb as int));
    if ta < tb && v[ta] == '[' && v[tb - 1] == ']' {
        assert(t.subrange(1, t.len() - 1) =~= v@.subrange(ta + 1, tb - 1));
        *section = (ta + 1, tb - 1);
        return;
    }
    match find_char(v, ta, tb, '=') {
        Some(e) => {
            let (ka, kb) = trim_range(v, ta, e);
            let (va, vb) = trim_range(v, e + 1, tb);
            assert(first_index_of(t, '=') == Some((e - ta) as int));
            assert(t.take(e - ta) =~= v@.subrange(ta as int, e as int));
            assert(t.skip(e - ta + 1) =~= v@.subrange(e + 1, tb as int));
            apply_setting_exec(contents, v, section.0, section.1, ka, kb, va, vb, cfg);
        },
        None => {
            assert(first_index_of(t, '=') is None);
        },
    }
}

/// Reads the settings from the text of a game configuration file, line by line.
pub fn parse_config(contents: &str) -> (cfg: GameSettings)
    ensures
        cfg@ == parse_config_spec(contents@),
{
    let v = chars_of(contents);
    let n = v.len();
    let mut cfg = GameSettings::default();
    let mut section: (usize, usize) = (0, 0);
    let mut line_start: usize = 0;
    let mut i: usize = 0;
    let ghost mut done: Seq<Seq<char>> = Seq::empty();
    assert(v@.subrange(0, 0) =~= Seq::<char>::empty());
    assert(v@.take(0) =~= Seq::<char>::empty());
    assert(split_lines(v@.take(0)) == seq![Seq::<char>::empty()]);
    assert(done.push(v@.subrange(0, 0)) =~= seq![Seq::<char>::empty()]);
    while i < n
        invariant
            v@ == contents@,
            n == v@.len(),
            line_start <= i <= n,
            section.0 <= section.1 <= n,
            split_lines(v@.take(i as int)) == done.push(v@.subrange(line_start as int, i as int)),
            apply_lines(done) == (ParseState {
                section: v@.subrange(section.0 as int, section.1 as int),
                settings: cfg@,
            }),
        decreases n - i,
    {
        let ghost prev_line = v@.subrange(line_start as int, i as int);
        assert(v@.take(i + 1).drop_last() =~= v@.take(i as int));
        assert(v@.take(i + 1).last() == v@[i as int]);
        if v[i] == '\n' {
            apply_line_exec(contents, &v, line_start, i, &mut section, &mut cfg);
            proof {
                let nd = done.push(prev_line);
                assert(nd.drop_last() =~= done);
                done = nd;
            }
            line_start = i + 1;
            assert(v@.subrange(line_start as int, (i + 1) as int) =~= Seq::<char>::empty());
        } else {
            assert(v@.subrange(line_start as int, i + 1) =~= prev_line.push(v@[i as int]));
            assert(done.push(prev_line).update(done.len() as int, prev_line.push(v@[i as int]))
                =~= done.push(v@.subrange(line_start as int, i + 1)));
        }
        i += 1;
    }
    let ghost last_line = v@.subrange(line_start as int, n as int);
    apply_line_exec(contents, &v, line_start, n, &mut section, &mut cfg);
    assert(v@.take(n as int) =~= v@);
    assert(done.push(last_line).drop_last() =~= done);
    cfg
}

/// An empty file leaves every setting at its default.
pub proof fn lemma_empty_config_is_default()
    ensures
        parse_config_spec(Seq::empty()) == default_settings(),
{
    let e = Seq::<char>::empty();
    assert(split_lines(e) == seq![e]);
    assert(seq![e].drop_last() =~= Seq::<Seq<char>>::empty());
    assert(apply_lines(Seq::<Seq<char>>::empty()) == initial_state());
    assert(seq![e].last() == e);
    assert(apply_lines(seq![e]) == apply_line(initial_state(), e));
    assert(trim_start(e) == e);
    assert(trim_end(e) == e);
    assert(trim(e) == e);
    assert(first_index_of(e, '=') is None);
    assert(apply_line(initial_state(), e) == initial_state());
}

/// Splitting `s`, a newline and `line` (which holds no newline) gives the
/// pieces of `s` followed by `line`.
proof fn lemma_split_appended_line(s: Seq<char>, line: Seq<char>)
    requires
        forall|i: int| 0 <= i < line.len() ==> line[i] != '\n',
    ensures
        split_lines(s + seq!['\n'] + line) == split_lines(s).push(line),
    decreases line.len(),
{
    let t = s + seq!['\n'] + line;
    if line.len() == 0 {
        assert(t.drop_last() =~= s);
        assert(t.last() == '\n');
        assert(line =~= Seq::<char>::empty());
        assert(split_lines(t) == split_lines(s).push(Seq::empty()));
    } else {
        let shorter = line.drop_last();
        lemma_split_appended_line(s, shorter);
        assert(t.drop_last() =~= s + seq!['\n'] + shorter);
        assert(t.last() == line.last());
        let prev = split_lines(s).push(shorter);
        assert(prev.update(prev.len() - 1, prev.last().push(line.last())) =~= split_lines(s).push(
            line,
        )) by {
            assert(shorter.push(line.last()) =~= line);
        }
    }
}

/// The file is read line by line, in order: a line added after the last
/// newline acts on the state that the lines before it left.
pub proof fn lemma_lines_apply_in_order(s: Seq<char>, line: Seq<char>)
    requires
        forall|i: int| 0 <= i < line.len() ==> line[i] != '\n',
    ensures
        apply_lines(split_lines(s + seq!['\n'] + line)) == apply_line(apply_lines(split_lines(s)), line),
{
    lemma_split_appended_line(s, line);
    assert(split_lines(s).push(line).drop_last() =~= split_lines(s));
}

/// The last line wins: a `Width`, `Height` or `WindowMode` line whose value
/// reads as a number, placed after the text `s` whose last section is
/// `[General]`, sets that setting to the number, whatever `s` set before, and
/// leaves the other settings as `s` left them.
pub proof fn lemma_last_general_line_wins(s: Seq<char>, line: Seq<char>, e: int, n: u32)
    requires
        forall|i: int| 0 <= i < line.len() ==> line[i] != '\n',
        apply_lines(split_lines(s)).section == "General"@,
        !(trim(line).len() > 0 && trim(line)[0] == '[' && trim(line).last() == ']'),
        first_index_of(trim(line), '=') == Some(e),
        parse_u32_spec(trim(trim(line).skip(e + 1))) == Some(n),
    ensures
        ({
            let key = trim(trim(line).take(e));
            let before = parse_config_spec(s);
            let after = parse_config_spec(s + seq!['\n'] + line);
            &&& after.game_width == if key == "Width"@ { n } else { before.game_width }
            &&& after.game_height == if key == "Height"@ { n } else { before.game_height }
            &&& after.window_mode == if key == "WindowMode"@ { n } else { before.window_mode }
            &&& after.hud_scale_texts == before.hud_scale_texts
        }),
{
    lemma_lines_apply_in_order(s, line);
    reveal_strlit("HUD");
    reveal_strlit("General");
    reveal_strlit("Width");
    reveal_strlit("Height");
    reveal_strlit("WindowMode");
    assert("General"@ != "HUD"@) by {
        assert("General"@.len() != "HUD"@.len());
    }
    assert("Width"@ != "Height"@) by {
        assert("Width"@.len() != "Height"@.len());
    }
    assert("Width"@ != "WindowMode"@) by {
        assert("Width"@.len() != "WindowMode"@.len());
    }
    assert("Height"@ != "WindowMode"@) by {
        assert("Height"@.len() != "WindowMode"@.len());
    }
}

/// A `GlobalScale` line placed after the text `s` whose last section is
/// `[HUD]` adds its value text after those `s` gave, and changes nothing else:
/// of the scale values, the later ones come last.
pub proof fn lemma_scale_line_appends(s: Seq<char>, line: Seq<char>, e: int)
    requires
        forall|i: int| 0 <= i < line.len() ==> line[i] != '\n',
        apply_lines(split_lines(s)).section == "HUD"@,
        !(trim(line).len() > 0 && trim(line)[0] == '[' && trim(line).last() == ']'),
        first_index_of(trim(line), '=') == Some(e),
        trim(trim(line).take(e)) == "GlobalScale"@,
    ensures
        ({
            let before = parse_config_spec(s);
            let after = parse_config_spec(s + seq!['\n'] + line);
            &&& after.hud_scale_texts == before.hud_scale_texts.push(trim(trim(line).skip(e + 1)))
            &&& after.game_width == before.game_width
            &&& after.game_height == before.game_height
            &&& after.window_mode == before.window_mode
        }),
{
    lemma_lines_apply_in_order(s, line);
}

/// In the `[HUD]` section only `GlobalScale` counts: a line whose key is
/// anything else (`GlobalScaleReplay` among them) changes no setting.
pub proof fn lemma_other_hud_keys_ignored(s: Seq<char>, line: Seq<char>, e: int)
    requires
        forall|i: int| 0 <= i < line.len() ==> line[i] != '\n',
        apply_lines(split_lines(s)).section == "HUD"@,
        !(trim(line).len() > 0 && trim(line)[0] == '[' && trim(line).last() == ']'),
        first_index_of(trim(line), '=') == Some(e),
        trim(trim(line).take(e)) != "GlobalScale"@,
    ensures
        parse_config_spec(s + seq!['\n'] + line) == parse_config_spec(s),
{
    lemma_lines_apply_in_order(s, line);
}

/// In the `[General]` section a line changes no setting unless its key is
/// exactly `Width`, `Height` or `WindowMode` and its value reads as a `u32`.
pub proof fn lemma_other_general_lines_ignored(s: Seq<char>, line: Seq<char>, e: int)
    requires
        forall|i: int| 0 <= i < line.len() ==> line[i] != '\n',
        apply_lines(split_lines(s)).section == "General"@,
        !(trim(line).len() > 0 && trim(line)[0] == '[' && trim(line).last() == ']'),
        first_index_of(trim(line), '=') == Some(e),
        ({
            let key = trim(trim(line).take(e));
            ||| (key != "Width"@ && key != "Height"@ && key != "WindowMode"@)
            ||| parse_u32_spec(trim(trim(line).skip(e + 1))) is None
        }),
    ensures
        parse_config_spec(s + seq!['\n'] + line) == parse_config_spec(s),
{
    lemma_lines_apply_in_order(s, line);
    reveal_strlit("HUD");
    reveal_strlit("General");
    assert("General"@ != "HUD"@) by {
        assert("General"@.len() != "HUD"@.len());
    }
}

/// Outside the `[HUD]` and `[General]` sections, and on any line that is
/// neither a section header nor holds `=`, no setting changes.
pub proof fn lemma_lines_elsewhere_ignored(s: Seq<char>, line: Seq<char>)
    requires
        forall|i: int| 0 <= i < line.len() ==> line[i] != '\n',
        !(trim(line).len() > 0 && trim(line)[0] == '[' && trim(line).last() == ']'),
        first_index_of(trim(line), '=') is None || (apply_lines(split_lines(s)).section != "HUD"@
            && apply_lines(split_lines(s)).section != "General"@),
    ensures
        parse_config_spec(s + seq!['\n'] + line) == parse_config_spec(s),
{
    lemma_lines_apply_in_order(s, line);
}

} // verus!
