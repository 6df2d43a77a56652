//! Engine configuration: the watched root path, the display theme, and the
//! per-subfolder retention limit (kept between 1 and 100 generations).

use vstd::prelude::*;
use vstd::string::{StrSliceExecFns, StringExecFns};

verus! {

/// Smallest admissible retention limit.
pub const MIN_GENERATIONS: usize = 1;

/// Largest admissible retention limit.
pub const MAX_GENERATIONS: usize = 100;

/// Configuration consumed by the engine.
#[derive(Clone, Debug)]
pub struct AppSettings {
    /// Path of the watched root directory; its immediate subdirectories are
    /// the subfolders the engine backs up.
    pub repo_save_path: String,
    /// Display theme name, kept for the presentation layer.
    pub theme: String,
    /// Retention limit: at most this many generations are kept per subfolder.
    pub max_generations: usize,
}

impl AppSettings {
    /// A settings value is well formed when its retention limit lies in the
    /// admissible range.
    pub open spec fn wf(self) -> bool {
        MIN_GENERATIONS <= self.max_generations <= MAX_GENERATIONS
    }
}

/// Theme used when none is configured.
pub fn default_theme() -> (r: String)
    ensures
        r@ == "system"@,
{
    String::from_str("system")
}

/// Retention limit used when none is configured.
pub fn default_max_generations() -> (r: usize)
    ensures
        r == 10,
{
    10
}

/// What a requested retention limit is forced to: values below the
/// admissible range become the minimum, values above it the maximum.
pub open spec fn spec_clamp_generations(g: usize) -> usize {
    if g < MIN_GENERATIONS {
        MIN_GENERATIONS
    } else if g > MAX_GENERATIONS {
        MAX_GENERATIONS
    } else {
        g
    }
}

/// Forces a requested retention limit into the admissible range.
pub fn clamp_generations(g: usize) -> (r: usize)
    ensures
        r == spec_clamp_generations(g),
        MIN_GENERATIONS <= r <= MAX_GENERATIONS,
{
    if g < MIN_GENERATIONS {
        MIN_GENERATIONS
    } else if g > MAX_GENERATIONS {
        MAX_GENERATIONS
    } else {
        g
    }
}

/// Whether a character is a decimal digit.
pub open spec fn is_digit(c: char) -> bool {
    '0' <= c && c <= '9'
}

/// The number a string of digits denotes; `None` when the string is empty
/// or holds any other character.
pub open spec fn spec_parse_decimal(s: Seq<char>) -> Option<int>
    decreases s.len(),
{
    if s.len() == 0 {
        None
    } else if !is_digit(s.last()) {
        None
    } else if s.len() == 1 {
        Some((s.last() as u32) - ('0' as u32))
    } else {
        match spec_parse_decimal(s.drop_last()) {
            Some(v) => Some(10 * v + ((s.last() as u32) - ('0' as u32))),
            None => None,
        }
    }
}

/// Parses a decimal number the way a retention-limit setting is read: the
/// value for a string of digits that fits the machine word, `None` for
/// anything else.
pub fn parse_decimal(s: &str) -> (r: Option<usize>)
    ensures
        r == (match spec_parse_decimal(s@) {
            Some(v) => if v <= usize::MAX {
                Option::Some(v as usize)
            } else {
                Option::<usize>::None
            },
            None => Option::<usize>::None,
        }),
{
    let n = s.unicode_len();
    if n == 0 {
        return None;
    }
    let mut acc: usize = 0;
    let mut i: usize = 0;
    while i < n
        invariant
            i <= n,
            n == s@.len(),
            n > 0,
            i > 0 ==> spec_parse_decimal(s@.take(i as int)) == Some(acc as int),
            i == 0 ==> acc == 0,
        decreases n - i,
    {
        let c = s.get_char(i);
        proof {
            vstd::utf8::char_is_scalar(c);
        }
        let v = c as u32;
        if v < 48 || v > 57 {
            proof {
                assert(s@.take(n as int) =~= s@);
                lemma_parse_decimal_bad(s@, i as int);
            }
            return None;
        }
        let d = (v - 48) as usize;
        let ghost prefix = s@.take(i as int);
        proof {
            assert(s@.take(i + 1).drop_last() =~= prefix);
            assert(s@.take(i + 1).last() == s@[i as int]);
        }
        if acc > (usize::MAX - d) / 10 {
            proof {
                assert(spec_parse_decimal(s@.take(i + 1)) == Some((10 * (acc as int) + d) as int));
                lemma_parse_decimal_grows(s@, i + 1);
                assert(10 * (acc as int) + d > usize::MAX);
            }
            return None;
        }
        acc = acc * 10 + d;
        i += 1;
    }
    proof {
        assert(s@.take(n as int) =~= s@);
    }
    Some(acc)
}

/// A string with a non-digit anywhere parses to nothing.
proof fn lemma_parse_decimal_bad(s: Seq<char>, i: int)
    requires
        0 <= i < s.len(),
        !is_digit(s[i]),
    ensures
        spec_parse_decimal(s) is None,
    decreases s.len(),
{
    if s.len() > 0 {
        if i == s.len() - 1 {
        } else {
            lemma_parse_decimal_bad(s.drop_last(), i);
        }
    }
}

/// A parsed number is never negative.
proof fn lemma_parse_decimal_nonneg(s: Seq<char>)
    ensures
        spec_parse_decimal(s) is Some ==> spec_parse_decimal(s)->0 >= 0,
    decreases s.len(),
{
    if s.len() > 0 && spec_parse_decimal(s) is Some {
        vstd::utf8::char_is_scalar(s.last());
        if s.len() > 1 {
            lemma_parse_decimal_nonneg(s.drop_last());
        }
    }
}

/// A longer digit string denotes at least as large a number.
proof fn lemma_parse_decimal_grows(s: Seq<char>, i: int)
    requires
        0 < i <= s.len(),
        spec_parse_decimal(s.take(i)) is Some,
    ensures
        spec_parse_decimal(s) is None || spec_parse_decimal(s)->0 >= spec_parse_decimal(
            s.take(i),
        )->0,
    decreases s.len() - i,
{
    if i < s.len() {
        if spec_parse_decimal(s.take(i + 1)) is Some {
            assert(s.take(i + 1).drop_last() =~= s.take(i));
            assert(s.take(i + 1).len() == i + 1);
            vstd::utf8::char_is_scalar(s.take(i + 1).last());
            lemma_parse_decimal_nonneg(s.take(i));
            assert(spec_parse_decimal(s.take(i + 1))->0 >= spec_parse_decimal(s.take(i))->0);
            lemma_parse_decimal_grows(s, i + 1);
        } else {
            lemma_parse_decimal_none_extends(s, i + 1);
        }
    } else {
        assert(s.take(i) =~= s);
    }
}

/// Once a prefix fails to parse, every longer prefix fails too.
proof fn lemma_parse_decimal_none_extends(s: Seq<char>, i: int)
    requires
        0 < i <= s.len(),
        spec_parse_decimal(s.take(i)) is None,
    ensures
        spec_parse_decimal(s) is None,
    decreases s.len() - i,
{
    if i < s.len() {
        assert(s.take(i + 1).drop_last() =~= s.take(i));
        lemma_parse_decimal_none_extends(s, i + 1);
    } else {
        assert(s.take(i) =~= s);
    }
}

/// Builds the settings that a configuration file's values denote, the way
/// the configuration is read: no stored watched-root path means no stored
/// settings; a missing theme falls back to the default; a missing or
/// unreadable retention limit falls back to the default limit, unclamped.
pub fn settings_from_values(
    repo_path: Option<&String>,
    theme: Option<&String>,
    max_generations: Option<&String>,
) -> (r: Option<AppSettings>)
    ensures
        r is Some <==> repo_path is Some,
        r is Some ==> ({
            let s = r->0;
            &&& s.repo_save_path@ == (repo_path->0)@
            &&& s.theme@ == (match theme {
                Some(t) => t@,
                None => "system"@,
            })
            &&& s.max_generations == (match max_generations {
                Some(m) => match spec_parse_decimal(m@) {
                    Some(v) => if v <= usize::MAX {
                        v as usize
                    } else {
                        10
                    },
                    None => 10,
                },
                None => 10,
            })
        }),
{
    let repo = match repo_path {
        Some(p) => p.clone(),
        None => {
            return None;
        },
    };
    let theme_val = match theme {
        Some(t) => t.clone(),
        None => default_theme(),
    };
    let max_val = match max_generations {
        Some(m) => match parse_decimal(m.as_str()) {
            Some(v) => v,
            None => default_max_generations(),
        },
        None => default_max_generations(),
    };
    Some(AppSettings { repo_save_path: repo, theme: theme_val, max_generations: max_val })
}

/// Applies a settings-change request to the current settings: the watched
/// root path is always replaced, the retention limit and the theme only when
/// the request carries them, and the limit is clamped to the admissible
/// range.
pub fn apply_settings_update(
    current: &AppSettings,
    repo_path: String,
    max_generations: Option<usize>,
    theme: Option<String>,
) -> (r: AppSettings)
    ensures
        r.repo_save_path@ == repo_path@,
        r.max_generations == match max_generations {
            Some(g) => spec_clamp_generations(g),
            None => current.max_generations,
        },
        r.theme@ == match theme {
            Some(t) => t@,
            None => current.theme@,
        },
        current.wf() ==> r.wf(),
{
    let new_max = match max_generations {
        Some(g) => clamp_generations(g),
        None => current.max_generations,
    };
    let new_theme = match theme {
        Some(t) => t,
        None => current.theme.clone(),
    };
    AppSettings { repo_save_path: repo_path, theme: new_theme, max_generations: new_max }
}

} // verus!
