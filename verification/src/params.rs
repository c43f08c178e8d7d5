//! The planner's configuration: waypoints, barriers and grid geometry.
//!
//! Lengths are millimetres and dimensionless factors are thousandths, so
//! the default coarse grid of 25 m is `25_000` and a covering factor of
//! 1.1 is `1_100`.

use vstd::prelude::*;
use vstd::string::StringExecFns;
use crate::barrier::{Barrier, barrier_wf};
use crate::coord::{Coord, in_bounds};

verus! {

/// The planner's configuration.
pub struct Params {
    /// The waypoints the track must visit, in order.
    pub points: Vec<Coord>,
    /// Polyline obstacles no step may cross.
    pub barriers: Vec<Barrier>,
    /// Coarse grid spacing, millimetres.
    pub grid_size_pass1: i64,
    /// Fine grid spacing, millimetres.
    pub grid_size_pass2: i64,
    /// Lengthwise size factor of the admissible ellipse, thousandths.
    pub covering_length: i64,
    /// Crosswise size factor of the admissible ellipse, thousandths.
    pub covering_width: i64,
    /// Reserved corridor width for the fine pass, millimetres.
    pub path_width_pass2: i64,
    /// Where the configuration was loaded from.
    pub params_fname: String,
    /// Where the computed track is written.
    pub output_fname: String,
    /// The name recorded on exported tracks.
    pub track_name: String,
}

/// The name given to tracks when none is configured.
pub fn default_track_name() -> (r: String)
    ensures
        r@ == "Stivalg"@,
{
    "Stivalg".to_owned()
}

impl Params {
    /// The grid geometry is positive and small enough for exact
    /// arithmetic, the covering factor is at least one, and every stored
    /// point lies in the planning area.
    pub open spec fn wf(&self) -> bool {
        &&& 1 <= self.grid_size_pass1 <= 1_000_000_000
        &&& 1 <= self.grid_size_pass2 <= 1_000_000_000
        &&& 1000 <= self.covering_length <= 1_000_000
        &&& 1 <= self.covering_width <= 1_000_000
        &&& 1 <= self.path_width_pass2 <= 1_000_000_000_000
        &&& forall|i: int| 0 <= i < self.points@.len() ==> in_bounds(#[trigger] self.points@[i])
        &&& forall|i: int|
            0 <= i < self.barriers@.len() ==> barrier_wf(#[trigger] self.barriers@[i].points@)
    }

    /// A configuration with no waypoints, no barriers, and the default
    /// geometry: coarse grid 25 m, fine grid 1 m, covering factors 1.1,
    /// corridor width 1000 m.
    pub fn from_config() -> (r: Params)
        ensures
            r.wf(),
            r.points@.len() == 0,
            r.barriers@.len() == 0,
            r.grid_size_pass1 == 25_000,
            r.grid_size_pass2 == 1000,
            r.covering_length == 1100,
            r.covering_width == 1100,
            r.path_width_pass2 == 1_000_000,
            r.params_fname@ == ""@,
            r.output_fname@ == ""@,
            r.track_name@ == "Stivalg"@,
    {
        Params {
            points: Vec::new(),
            barriers: Vec::new(),
            grid_size_pass1: 25_000,
            grid_size_pass2: 1000,
            covering_length: 1100,
            covering_width: 1100,
            path_width_pass2: 1_000_000,
            params_fname: "".to_owned(),
            output_fname: "".to_owned(),
            track_name: default_track_name(),
        }
    }
}

/// Whether a character is a decimal digit.
pub open spec fn is_digit(c: char) -> bool {
    48 <= c as u32 <= 57
}

/// The value of one decimal digit.
pub open spec fn digit_val(c: char) -> int {
    c as u32 - 48
}

/// All characters in `[i, j)` are decimal digits.
pub open spec fn all_digits(s: Seq<char>, i: int, j: int) -> bool {
    forall|k: int| i <= k < j ==> is_digit(#[trigger] s[k])
}

/// The number the digits in `[i, j)` spell.
pub open spec fn digits_val(s: Seq<char>, i: int, j: int) -> int
    decreases j - i,
{
    if i >= j {
        0
    } else {
        digits_val(s, i, j - 1) * 10 + digit_val(s[j - 1])
    }
}

/// The position of the first `.` at or after `i`, or `-1` when there is
/// none.
pub open spec fn find_dot(s: Seq<char>, i: int) -> int
    decreases s.len() - i,
{
    if i < 0 || i >= s.len() {
        -1
    } else if s[i] == '.' {
        i
    } else {
        find_dot(s, i + 1)
    }
}

/// The value of the first three digits after the dot, in thousandths;
/// further digits are truncated away.
pub open spec fn frac3(s: Seq<char>, p: int, j: int) -> int {
    (if p < j {
        100 * digit_val(s[p])
    } else {
        0
    }) + (if p + 1 < j {
        10 * digit_val(s[p + 1])
    } else {
        0
    }) + (if p + 2 < j {
        digit_val(s[p + 2])
    } else {
        0
    })
}

/// The largest whole-number part a parameter value may carry.
pub const PARSE_MAX: i64 = 1_000_000_000_000;

/// A decimal parameter value in thousandths: an optional minus sign, at
/// least one digit, and an optional fraction, of which the first three
/// digits count.  Nothing for any other shape, or when the whole part
/// exceeds the supported range.
pub open spec fn milli_of(s: Seq<char>) -> Option<int> {
    let start: int = if s.len() > 0 && s[0] == '-' {
        1
    } else {
        0
    };
    let dot = find_dot(s, start);
    let ip_end: int = if dot >= 0 {
        dot
    } else {
        s.len() as int
    };
    if ip_end <= start || !all_digits(s, start, ip_end) || (dot >= 0 && !all_digits(
        s,
        dot + 1,
        s.len() as int,
    )) {
        Option::None
    } else if digits_val(s, start, ip_end) > PARSE_MAX {
        Option::None
    } else {
        let v = digits_val(s, start, ip_end) * 1000 + (if dot >= 0 {
            frac3(s, dot + 1, s.len() as int)
        } else {
            0
        });
        Option::Some(
            if start == 1 {
                -v
            } else {
                v
            },
        )
    }
}

/// Digit strings spell non-negative, non-decreasing values.
proof fn lemma_digits_val_grows(s: Seq<char>, i: int, j: int, j2: int)
    requires
        i <= j <= j2,
        all_digits(s, i, j2),
    ensures
        0 <= digits_val(s, i, j) <= digits_val(s, i, j2),
    decreases j2 - i, j2 - j,
{
    if j2 == j {
        if j > i {
            lemma_digits_val_grows(s, i, j - 1, j - 1);
            assert(digits_val(s, i, j - 1) * 10 >= 0) by (nonlinear_arith)
                requires
                    digits_val(s, i, j - 1) >= 0,
            ;
            assert(is_digit(s[j - 1]));
        }
    } else {
        lemma_digits_val_grows(s, i, j, j2 - 1);
        lemma_digits_val_grows(s, i, j2 - 1, j2 - 1);
        assert(digits_val(s, i, j2 - 1) * 10 >= digits_val(s, i, j2 - 1)) by (nonlinear_arith)
            requires
                digits_val(s, i, j2 - 1) >= 0,
        ;
        assert(is_digit(s[j2 - 1]));
    }
}

/// Parse a decimal parameter value into thousandths.
fn parse_milli(value: &str) -> (r: Option<i64>)
    ensures
        match r {
            Option::Some(v) => milli_of(value@) == Option::Some(v as int),
            Option::None => milli_of(value@) is None,
        },
{
    let s = value;
    let n = s.unicode_len();
    let ghost sv = s@;
    let neg: bool = n > 0 && s.get_char(0) == '-';
    let start: usize = if neg {
        1
    } else {
        0
    };
    // find the dot and check every other character is a digit
    let mut dot_pos: usize = n;
    let mut has_dot = false;
    let mut i: usize = start;
    while i < n
        invariant
            n == sv.len(),
            sv == s@,
            sv == value@,
            start <= i <= n,
            start <= 1,
            start as int == (if sv.len() > 0 && sv[0] == '-' {
                1int
            } else {
                0int
            }),
            !has_dot ==> dot_pos == n && find_dot(sv, start as int) == find_dot(sv, i as int)
                && all_digits(sv, start as int, i as int),
            has_dot ==> start <= dot_pos < i && sv[dot_pos as int] == '.' && find_dot(
                sv,
                start as int,
            ) == dot_pos && all_digits(sv, start as int, dot_pos as int) && all_digits(
                sv,
                dot_pos + 1,
                i as int,
            ),
        decreases n - i,
    {
        let c = s.get_char(i);
        if c == '.' {
            if has_dot {
                proof {
                    assert(!is_digit(sv[i as int]));
                    assert(!all_digits(sv, dot_pos + 1, sv.len() as int));
                }
                return None;
            }
            has_dot = true;
            dot_pos = i;
        } else if !(c >= '0' && c <= '9') {
            proof {
                assert(!is_digit(sv[i as int]));
                if has_dot {
                    assert(!all_digits(sv, dot_pos + 1, sv.len() as int));
                } else {
                    assert(find_dot(sv, i as int) == find_dot(sv, i + 1));
                    let d = find_dot(sv, start as int);
                    lemma_find_dot_ge(sv, i + 1);
                    if d >= 0 {
                        assert(d >= i + 1);
                        assert(!all_digits(sv, start as int, d));
                    } else {
                        assert(!all_digits(sv, start as int, sv.len() as int));
                    }
                }
            }
            return None;
        }
        i = i + 1;
    }
    proof {
        if !has_dot {
            lemma_find_dot_after(sv, n as int);
        }
    }
    let ip_end: usize = if has_dot {
        dot_pos
    } else {
        n
    };
    if ip_end <= start {
        return None;
    }
    // whole part
    let mut iv: i64 = 0;
    let mut k: usize = start;
    while k < ip_end
        invariant
            n == sv.len(),
            sv == s@,
            sv == value@,
            start <= k <= ip_end <= n,
            all_digits(sv, start as int, ip_end as int),
            start as int == (if sv.len() > 0 && sv[0] == '-' {
                1int
            } else {
                0int
            }),
            has_dot ==> sv[dot_pos as int] == '.' && find_dot(sv, start as int) == dot_pos,
            !has_dot ==> find_dot(sv, start as int) == -1,
            ip_end as int == (if find_dot(sv, start as int) >= 0 {
                find_dot(sv, start as int)
            } else {
                sv.len() as int
            }),
            0 <= iv,
            iv == digits_val(sv, start as int, k as int),
            iv <= PARSE_MAX,
        decreases ip_end - k,
    {
        let c = s.get_char(k);
        let d: i64 = (c as u32) as i64 - 48;
        proof {
            assert(is_digit(sv[k as int]));
        }
        let next: i64 = iv * 10 + d;
        if next > PARSE_MAX {
            proof {
                lemma_digits_val_grows(sv, start as int, k + 1, ip_end as int);
            }
            return None;
        }
        iv = next;
        k = k + 1;
    }
    // fraction
    let mut f: i64 = 0;
    if has_dot {
        let p = dot_pos + 1;
        if p < n {
            proof {
                assert(is_digit(sv[p as int]));
            }
            f = f + 100 * ((s.get_char(p) as u32) as i64 - 48);
            if p + 1 < n {
                proof {
                    assert(is_digit(sv[p + 1]));
                }
                f = f + 10 * ((s.get_char(p + 1) as u32) as i64 - 48);
                if p + 2 < n {
                    proof {
                        assert(is_digit(sv[p + 2]));
                    }
                    f = f + ((s.get_char(p + 2) as u32) as i64 - 48);
                }
            }
        }
    }
    proof {
        assert(0 <= iv * 1000 <= 1_000_000_000_000_000) by (nonlinear_arith)
            requires
                0 <= iv <= 1_000_000_000_000,
        ;
    }
    let v: i64 = iv * 1000 + f;
    if neg {
        Some(-v)
    } else {
        Some(v)
    }
}

/// Past the end of the string there is no dot.
proof fn lemma_find_dot_after(s: Seq<char>, i: int)
    requires
        i >= s.len(),
    ensures
        find_dot(s, i) == -1,
{
}

/// A found dot lies at or after where the search began.
proof fn lemma_find_dot_ge(s: Seq<char>, j: int)
    requires
        0 <= j,
    ensures
        find_dot(s, j) == -1 || (j <= find_dot(s, j) < s.len() && s[find_dot(s, j)] == '.'),
    decreases s.len() - j,
{
    if j < s.len() && s[j] != '.' {
        lemma_find_dot_ge(s, j + 1);
    }
}

impl Params {
    /// Set a named parameter from its textual value: the grid sizes and
    /// covering factors parse as decimal numbers into thousandths, the
    /// track name is stored as given, and any other name is refused.
    pub fn set(&mut self, param: &str, value: &str) -> (r: Result<(), ()>)
        ensures
            param@ == "grid_size_pass1"@ ==> match milli_of(value@) {
                Option::Some(v) => r is Ok && *final(self) == (Params {
                    grid_size_pass1: v as i64,
                    ..*old(self)
                }),
                Option::None => r is Err && *final(self) == *old(self),
            },
            param@ == "grid_size_pass2"@ ==> match milli_of(value@) {
                Option::Some(v) => r is Ok && *final(self) == (Params {
                    grid_size_pass2: v as i64,
                    ..*old(self)
                }),
                Option::None => r is Err && *final(self) == *old(self),
            },
            param@ == "covering_length"@ ==> match milli_of(value@) {
                Option::Some(v) => r is Ok && *final(self) == (Params {
                    covering_length: v as i64,
                    ..*old(self)
                }),
                Option::None => r is Err && *final(self) == *old(self),
            },
            param@ == "covering_width"@ ==> match milli_of(value@) {
                Option::Some(v) => r is Ok && *final(self) == (Params {
                    covering_width: v as i64,
                    ..*old(self)
                }),
                Option::None => r is Err && *final(self) == *old(self),
            },
            param@ == "path_width_pass2"@ ==> match milli_of(value@) {
                Option::Some(v) => r is Ok && *final(self) == (Params {
                    path_width_pass2: v as i64,
                    ..*old(self)
                }),
                Option::None => r is Err && *final(self) == *old(self),
            },
            param@ == "track_name"@ ==> {
                &&& r is Ok
                &&& final(self).track_name@ == value@
                &&& final(self).points == old(self).points
                &&& final(self).barriers == old(self).barriers
                &&& final(self).grid_size_pass1 == old(self).grid_size_pass1
                &&& final(self).grid_size_pass2 == old(self).grid_size_pass2
                &&& final(self).covering_length == old(self).covering_length
                &&& final(self).covering_width == old(self).covering_width
                &&& final(self).path_width_pass2 == old(self).path_width_pass2
                &&& final(self).params_fname == old(self).params_fname
                &&& final(self).output_fname == old(self).output_fname
            },
            param@ != "grid_size_pass1"@ && param@ != "grid_size_pass2"@ && param@
                != "covering_length"@ && param@ != "covering_width"@ && param@
                != "path_width_pass2"@ && param@ != "track_name"@ ==> r is Err && *final(self)
                == *old(self),
    {
        proof {
            reveal_strlit("grid_size_pass1");
            reveal_strlit("grid_size_pass2");
            reveal_strlit("covering_length");
            reveal_strlit("covering_width");
            reveal_strlit("path_width_pass2");
            reveal_strlit("track_name");
            assert("grid_size_pass1"@.len() == 15 && "grid_size_pass2"@.len() == 15
                && "covering_length"@.len() == 15 && "covering_width"@.len() == 14
                && "path_width_pass2"@.len() == 16 && "track_name"@.len() == 10);
            assert("grid_size_pass1"@[14] == '1' && "grid_size_pass2"@[14] == '2'
                && "covering_length"@[0] == 'c' && "grid_size_pass1"@[0] == 'g'
                && "grid_size_pass2"@[0] == 'g');
        }
        if str_eq(param, "grid_size_pass1") {
            match parse_milli(value) {
                Option::Some(v) => {
                    self.grid_size_pass1 = v;
                    Ok(())
                },
                Option::None => Err(()),
            }
        } else if str_eq(param, "grid_size_pass2") {
            match parse_milli(value) {
                Option::Some(v) => {
                    self.grid_size_pass2 = v;
                    Ok(())
                },
                Option::None => Err(()),
            }
        } else if str_eq(param, "covering_length") {
            match parse_milli(value) {
                Option::Some(v) => {
                    self.covering_length = v;
                    Ok(())
                },
                Option::None => Err(()),
            }
        } else if str_eq(param, "covering_width") {
            match parse_milli(value) {
                Option::Some(v) => {
                    self.covering_width = v;
                    Ok(())
                },
                Option::None => Err(()),
            }
        } else if str_eq(param, "path_width_pass2") {
            match parse_milli(value) {
                Option::Some(v) => {
                    self.path_width_pass2 = v;
                    Ok(())
                },
                Option::None => Err(()),
            }
        } else if str_eq(param, "track_name") {
            self.track_name = value.to_owned();
            Ok(())
        } else {
            Err(())
        }
    }
}

/// Whether two strings hold the same characters.
fn str_eq(a: &str, b: &str) -> (r: bool)
    ensures
        r == (a@ == b@),
{
    let na = a.unicode_len();
    let nb = b.unicode_len();
    if na != nb {
        proof {
            assert(a@ != b@) by {
                assert(a@.len() != b@.len());
            }
        }
        return false;
    }
    let mut i: usize = 0;
    while i < na
        invariant
            na == a@.len(),
            nb == b@.len(),
            na == nb,
            i <= na,
            forall|k: int| 0 <= k < i ==> a@[k] == b@[k],
        decreases na - i,
    {
        if s_char(a, i) != s_char(b, i) {
            return false;
        }
        i = i + 1;
    }
    proof {
        assert(a@ =~= b@);
    }
    true
}

/// One character of a string.
fn s_char(s: &str, i: usize) -> (c: char)
    requires
        i < s@.len(),
    ensures
        c == s@[i as int],
{
    s.get_char(i)
}

} // verus!
