//! Parsing a points response body.
//!
//! The points endpoint answers with a JSON object whose totals appear either
//! as numbers or as numeric strings; a nested `season1Points` object carries
//! the first season's totals. A body that is not such an object yields no
//! data (the caller substitutes the documented zero defaults); a recognised
//! field whose value cannot be read as a decimal is marked `Bad`, which the
//! caller treats as a retryable fetch error. Unknown members are stepped
//! over and ignored.

use vstd::prelude::*;
use crate::decimal::Decimal;
use crate::decimal::is_digit;
use crate::decimal::parse_decimal_at;
use crate::decimal::parse_decimal_value;
use crate::decimal::parse_decimal_range;
use crate::scan::container_end;
use crate::scan::container_end_at;
use crate::scan::num_end;
use crate::scan::num_end_at;
use crate::scan::span_eq_str;
use crate::scan::string_end;
use crate::scan::string_end_at;
use crate::scan::ws_end;
use crate::scan::ws_end_at;
use crate::scan::lemma_num_end_bounds;
use crate::scan::lemma_ws_end_bounds;
use crate::scan::lemma_string_end_bounds;
use crate::scan::lemma_container_end_bounds;

verus! {

/// What the body said about one total: absent, a decimal value, or present
/// but not readable as a decimal.
#[derive(Clone, Copy, Debug, PartialEq, Eq, Structural)]
pub enum FieldVal {
    Missing,
    Val(Decimal),
    Bad,
}

/// The first season's totals as the body carried them.
#[derive(Clone, Copy, Debug, PartialEq, Eq, Structural)]
pub struct SeasonRaw {
    pub total_points: FieldVal,
    pub total_staking_points: FieldVal,
    pub total_ref_points: FieldVal,
    pub total_pendle_points: FieldVal,
    pub total_build_points: FieldVal,
}

/// The `season1Points` member: absent, an object, or present with some
/// other shape.
#[derive(Clone, Copy, Debug, PartialEq, Eq, Structural)]
pub enum SeasonVal {
    Missing,
    Obj(SeasonRaw),
    Bad,
}

/// Everything the body said about the totals a fetch record needs.
#[derive(Clone, Copy, Debug, PartialEq, Eq, Structural)]
pub struct PointsRaw {
    pub total_points: FieldVal,
    pub total_staking_points: FieldVal,
    pub total_ref_points: FieldVal,
    pub total_build_points: FieldVal,
    pub total_ref_build_points: FieldVal,
    pub total_pendle_points: FieldVal,
    pub season1_points: SeasonVal,
}

pub open spec fn empty_season() -> SeasonRaw {
    SeasonRaw {
        total_points: FieldVal::Missing,
        total_staking_points: FieldVal::Missing,
        total_ref_points: FieldVal::Missing,
        total_pendle_points: FieldVal::Missing,
        total_build_points: FieldVal::Missing,
    }
}

pub open spec fn empty_points() -> PointsRaw {
    PointsRaw {
        total_points: FieldVal::Missing,
        total_staking_points: FieldVal::Missing,
        total_ref_points: FieldVal::Missing,
        total_build_points: FieldVal::Missing,
        total_ref_build_points: FieldVal::Missing,
        total_pendle_points: FieldVal::Missing,
        season1_points: SeasonVal::Missing,
    }
}

pub fn season_raw_empty() -> (r: SeasonRaw)
    ensures
        r == empty_season(),
{
    SeasonRaw {
        total_points: FieldVal::Missing,
        total_staking_points: FieldVal::Missing,
        total_ref_points: FieldVal::Missing,
        total_pendle_points: FieldVal::Missing,
        total_build_points: FieldVal::Missing,
    }
}

pub fn points_raw_empty() -> (r: PointsRaw)
    ensures
        r == empty_points(),
{
    PointsRaw {
        total_points: FieldVal::Missing,
        total_staking_points: FieldVal::Missing,
        total_ref_points: FieldVal::Missing,
        total_build_points: FieldVal::Missing,
        total_ref_build_points: FieldVal::Missing,
        total_pendle_points: FieldVal::Missing,
        season1_points: SeasonVal::Missing,
    }
}

/// A recognised total whose value is `Bad`, anywhere in the raw record,
/// makes the whole response unusable for a fetch record.
pub open spec fn season_has_bad(sr: SeasonRaw) -> bool {
    ||| sr.total_points is Bad
    ||| sr.total_staking_points is Bad
    ||| sr.total_ref_points is Bad
    ||| sr.total_pendle_points is Bad
    ||| sr.total_build_points is Bad
}

pub open spec fn raw_has_bad(p: PointsRaw) -> bool {
    ||| p.total_points is Bad
    ||| p.total_staking_points is Bad
    ||| p.total_ref_points is Bad
    ||| p.total_build_points is Bad
    ||| p.total_ref_build_points is Bad
    ||| p.total_pendle_points is Bad
    ||| (match p.season1_points {
        SeasonVal::Missing => false,
        SeasonVal::Obj(sr) => season_has_bad(sr),
        SeasonVal::Bad => true,
    })
}

/// The value of a numeric member starting at `i`: the decimal behind a
/// number token or a quoted numeric string, `Bad` for a value of any other
/// shape, `None` when the text is not a value at all.
pub open spec fn field_value_at(s: Seq<char>, i: int, b: int) -> Option<(FieldVal, int)> {
    if i >= b || i >= s.len() {
        None
    } else if s[i] == '"' {
        match string_end(s, i + 1, b) {
            Some(e) => Some(
                (
                    (match parse_decimal_at(s, i + 1, e - 1) {
                        Some(d) => FieldVal::Val(d),
                        None => FieldVal::Bad,
                    }),
                    e,
                ),
            ),
            None => None,
        }
    } else if is_digit(s[i]) || s[i] == '-' {
        let e = num_end(s, i, b);
        Some(
            (
                (match parse_decimal_at(s, i, e) {
                    Some(d) => FieldVal::Val(d),
                    None => FieldVal::Bad,
                }),
                e,
            ),
        )
    } else if s[i] == '{' || s[i] == '[' {
        match container_end(s, i + 1, b, 1, false) {
            Some(e) => Some((FieldVal::Bad, e)),
            None => None,
        }
    } else if i + 4 <= b && s.subrange(i, i + 4) == "true"@ {
        Some((FieldVal::Bad, i + 4))
    } else if i + 5 <= b && s.subrange(i, i + 5) == "false"@ {
        Some((FieldVal::Bad, i + 5))
    } else if i + 4 <= b && s.subrange(i, i + 4) == "null"@ {
        Some((FieldVal::Bad, i + 4))
    } else {
        None
    }
}

/// Step over one value of any shape; `None` when the text is malformed.
pub open spec fn skip_value_at(s: Seq<char>, i: int, b: int) -> Option<int> {
    if i >= b || i >= s.len() {
        None
    } else if s[i] == '"' {
        string_end(s, i + 1, b)
    } else if is_digit(s[i]) || s[i] == '-' {
        Some(num_end(s, i, b))
    } else if s[i] == '{' || s[i] == '[' {
        container_end(s, i + 1, b, 1, false)
    } else if i + 4 <= b && s.subrange(i, i + 4) == "true"@ {
        Some(i + 4)
    } else if i + 5 <= b && s.subrange(i, i + 5) == "false"@ {
        Some(i + 5)
    } else if i + 4 <= b && s.subrange(i, i + 4) == "null"@ {
        Some(i + 4)
    } else {
        None
    }
}

pub proof fn lemma_field_value_bounds(s: Seq<char>, i: int, b: int)
    requires
        0 <= i <= b <= s.len(),
    ensures
        field_value_at(s, i, b) matches Some(p) ==> i < p.1 <= b,
{
    if i < b {
        if s[i] == '"' {
            lemma_string_end_bounds(s, i + 1, b);
        } else if is_digit(s[i]) || s[i] == '-' {
            lemma_num_end_bounds(s, i + 1, b);
            assert(num_end(s, i, b) == num_end(s, i + 1, b));
        } else if s[i] == '{' || s[i] == '[' {
            lemma_container_end_bounds(s, i + 1, b, 1, false);
        }
    }
}

pub proof fn lemma_skip_value_bounds(s: Seq<char>, i: int, b: int)
    requires
        0 <= i <= b <= s.len(),
    ensures
        skip_value_at(s, i, b) matches Some(e) ==> i < e <= b,
{
    if i < b {
        if s[i] == '"' {
            lemma_string_end_bounds(s, i + 1, b);
        } else if is_digit(s[i]) || s[i] == '-' {
            lemma_num_end_bounds(s, i + 1, b);
            assert(num_end(s, i, b) == num_end(s, i + 1, b));
        } else if s[i] == '{' || s[i] == '[' {
            lemma_container_end_bounds(s, i + 1, b, 1, false);
        }
    }
}

/// How a decimal reading becomes a field: a value when it parsed, `Bad`
/// when it did not.
pub open spec fn coerced(o: Option<Decimal>) -> FieldVal {
    match o {
        Some(d) => FieldVal::Val(d),
        None => FieldVal::Bad,
    }
}

/// Both carriers of a total are read by one and the same decimal parse: a
/// quoted string yields exactly `parse_decimal_value` of the characters
/// between its quotes, and a bare number token yields exactly
/// `parse_decimal_value` of its characters. No branch depends on the JSON
/// type beyond picking those characters out.
pub proof fn lemma_value_reading(s: Seq<char>, i: int, b: int)
    requires
        0 <= i <= b <= s.len(),
    ensures
        i < b && s[i] == '"' ==> (string_end(s, i + 1, b) matches Some(e) ==> field_value_at(
            s,
            i,
            b,
        ) == Some((coerced(parse_decimal_value(s.subrange(i + 1, e - 1))), e))),
        (i < b && (is_digit(s[i]) || s[i] == '-')) ==> field_value_at(s, i, b) == Some(
            (
                coerced(parse_decimal_value(s.subrange(i, num_end(s, i, b)))),
                num_end(s, i, b),
            ),
        ),
{
    if i < b && s[i] == '"' {
        match string_end(s, i + 1, b) {
            Some(e) => {
                lemma_string_end_bounds(s, i + 1, b);
                crate::decimal::lemma_parse_decimal_extract(s, i + 1, e - 1);
            },
            None => {},
        }
    }
    if i < b && (is_digit(s[i]) || s[i] == '-') {
        lemma_num_end_bounds(s, i, b);
        crate::decimal::lemma_parse_decimal_extract(s, i, num_end(s, i, b));
    }
}

/// Two totals that spell the same characters — one as a quoted string, one
/// as a bare number — coerce to the same value.
pub proof fn lemma_string_number_agree(
    s1: Seq<char>,
    i1: int,
    b1: int,
    e1: int,
    s2: Seq<char>,
    i2: int,
    b2: int,
)
    requires
        0 <= i1 < b1 <= s1.len(),
        s1[i1] == '"',
        string_end(s1, i1 + 1, b1) == Some(e1),
        0 <= i2 < b2 <= s2.len(),
        is_digit(s2[i2]) || s2[i2] == '-',
        s1.subrange(i1 + 1, e1 - 1) == s2.subrange(i2, num_end(s2, i2, b2)),
    ensures
        field_value_at(s1, i1, b1) matches Some(p1) && field_value_at(s2, i2, b2) matches Some(p2)
            && p1.0 == p2.0,
{
    lemma_value_reading(s1, i1, b1);
    lemma_value_reading(s2, i2, b2);
}

pub open spec fn is_season_key(key: Seq<char>) -> bool {
    ||| key == "totalPoints"@
    ||| key == "totalStakingPoints"@
    ||| key == "totalRefPoints"@
    ||| key == "totalPendlePoints"@
    ||| key == "totalBuildPoints"@
}

/// The season accumulator with the member named `key` set to `fv`.
pub open spec fn season_with(acc: SeasonRaw, key: Seq<char>, fv: FieldVal) -> SeasonRaw {
    if key == "totalPoints"@ {
        SeasonRaw { total_points: fv, ..acc }
    } else if key == "totalStakingPoints"@ {
        SeasonRaw { total_staking_points: fv, ..acc }
    } else if key == "totalRefPoints"@ {
        SeasonRaw { total_ref_points: fv, ..acc }
    } else if key == "totalPendlePoints"@ {
        SeasonRaw { total_pendle_points: fv, ..acc }
    } else if key == "totalBuildPoints"@ {
        SeasonRaw { total_build_points: fv, ..acc }
    } else {
        acc
    }
}

pub open spec fn is_top_key(key: Seq<char>) -> bool {
    ||| key == "totalPoints"@
    ||| key == "totalStakingPoints"@
    ||| key == "totalRefPoints"@
    ||| key == "totalBuildPoints"@
    ||| key == "totalRefBuildPoints"@
    ||| key == "totalPendlePoints"@
}

/// The top-level accumulator with the member named `key` set to `fv`.
pub open spec fn points_with(acc: PointsRaw, key: Seq<char>, fv: FieldVal) -> PointsRaw {
    if key == "totalPoints"@ {
        PointsRaw { total_points: fv, ..acc }
    } else if key == "totalStakingPoints"@ {
        PointsRaw { total_staking_points: fv, ..acc }
    } else if key == "totalRefPoints"@ {
        PointsRaw { total_ref_points: fv, ..acc }
    } else if key == "totalBuildPoints"@ {
        PointsRaw { total_build_points: fv, ..acc }
    } else if key == "totalRefBuildPoints"@ {
        PointsRaw { total_ref_build_points: fv, ..acc }
    } else if key == "totalPendlePoints"@ {
        PointsRaw { total_pendle_points: fv, ..acc }
    } else {
        acc
    }
}

/// Walk the members of the `season1Points` object, starting at the opening
/// quote of a key and ending just past the closing brace.
pub open spec fn season_members_at(s: Seq<char>, i: int, b: int, acc: SeasonRaw) -> Option<
    (SeasonRaw, int),
>
    decreases b - i,
        when 0 <= i <= b <= s.len()
{
    if i >= b || s[i] != '"' {
        None
    } else {
        match string_end(s, i + 1, b) {
            None => None,
            Some(ke) => {
                let key = s.subrange(i + 1, ke - 1);
                let j = ws_end(s, ke, b);
                if j >= b || s[j] != ':' {
                    None
                } else {
                    let k = ws_end(s, j + 1, b);
                    let step: Option<(SeasonRaw, int)> = if is_season_key(key) {
                        match field_value_at(s, k, b) {
                            Some(p) => Some((season_with(acc, key, p.0), p.1)),
                            None => None,
                        }
                    } else {
                        match skip_value_at(s, k, b) {
                            Some(e) => Some((acc, e)),
                            None => None,
                        }
                    };
                    match step {
                        None => None,
                        Some(st) => {
                            let m = ws_end(s, st.1, b);
                            if m < b && s[m] == '}' {
                                Some((st.0, m + 1))
                            } else if m < b && s[m] == ',' {
                                let nx = ws_end(s, m + 1, b);
                                proof {
                                    lemma_string_end_bounds(s, i + 1, b);
                                    lemma_ws_end_bounds(s, ke, b);
                                    lemma_ws_end_bounds(s, j + 1, b);
                                    lemma_field_value_bounds(s, k, b);
                                    lemma_skip_value_bounds(s, k, b);
                                    lemma_ws_end_bounds(s, st.1, b);
                                    lemma_ws_end_bounds(s, m + 1, b);
                                }
                                season_members_at(s, nx, b, st.0)
                            } else {
                                None
                            }
                        },
                    }
                }
            },
        }
    }
}

/// Walk the members of the top-level object, starting at the opening quote
/// of a key and ending just past the closing brace.
pub open spec fn members_at(s: Seq<char>, i: int, b: int, acc: PointsRaw) -> Option<
    (PointsRaw, int),
>
    decreases b - i,
        when 0 <= i <= b <= s.len()
{
    if i >= b || s[i] != '"' {
        None
    } else {
        match string_end(s, i + 1, b) {
            None => None,
            Some(ke) => {
                let key = s.subrange(i + 1, ke - 1);
                let j = ws_end(s, ke, b);
                if j >= b || s[j] != ':' {
                    None
                } else {
                    let k = ws_end(s, j + 1, b);
                    let step: Option<(PointsRaw, int)> = if is_top_key(key) {
                        match field_value_at(s, k, b) {
                            Some(p) => Some((points_with(acc, key, p.0), p.1)),
                            None => None,
                        }
                    } else if key == "season1Points"@ {
                        if k < b && s[k] == '{' {
                            let j2 = ws_end(s, k + 1, b);
                            if j2 < b && s[j2] == '}' {
                                Some(
                                    (
                                        PointsRaw {
                                            season1_points: SeasonVal::Obj(empty_season()),
                                            ..acc
                                        },
                                        j2 + 1,
                                    ),
                                )
                            } else {
                                match season_members_at(s, j2, b, empty_season()) {
                                    Some(p) => Some(
                                        (
                                            PointsRaw {
                                                season1_points: SeasonVal::Obj(p.0),
                                                ..acc
                                            },
                                            p.1,
                                        ),
                                    ),
                                    None => None,
                                }
                            }
                        } else {
                            match skip_value_at(s, k, b) {
                                Some(e) => Some(
                                    (PointsRaw { season1_points: SeasonVal::Bad, ..acc }, e),
                                ),
                                None => None,
                            }
                        }
                    } else {
                        match skip_value_at(s, k, b) {
                            Some(e) => Some((acc, e)),
                            None => None,
                        }
                    };
                    match step {
                        None => None,
                        Some(st) => {
                            let m = ws_end(s, st.1, b);
                            if m < b && s[m] == '}' {
                                Some((st.0, m + 1))
                            } else if m < b && s[m] == ',' {
                                let nx = ws_end(s, m + 1, b);
                                proof {
                                    lemma_string_end_bounds(s, i + 1, b);
                                    lemma_ws_end_bounds(s, ke, b);
                                    lemma_ws_end_bounds(s, j + 1, b);
                                    lemma_field_value_bounds(s, k, b);
                                    lemma_skip_value_bounds(s, k, b);
                                    if k < b && s[k] == '{' {
                                        lemma_ws_end_bounds(s, k + 1, b);
                                        lemma_season_members_bounds(
                                            s,
                                            ws_end(s, k + 1, b),
                                            b,
                                            empty_season(),
                                        );
                                    }
                                    lemma_ws_end_bounds(s, st.1, b);
                                    lemma_ws_end_bounds(s, m + 1, b);
                                }
                                members_at(s, nx, b, st.0)
                            } else {
                                None
                            }
                        },
                    }
                }
            },
        }
    }
}

pub proof fn lemma_season_members_bounds(s: Seq<char>, i: int, b: int, acc: SeasonRaw)
    requires
        0 <= i <= b <= s.len(),
    ensures
        season_members_at(s, i, b, acc) matches Some(p) ==> i < p.1 <= b,
    decreases b - i,
{
    if i < b && s[i] == '"' {
        match string_end(s, i + 1, b) {
            None => {},
            Some(ke) => {
                lemma_string_end_bounds(s, i + 1, b);
                let key = s.subrange(i + 1, ke - 1);
                let j = ws_end(s, ke, b);
                lemma_ws_end_bounds(s, ke, b);
                if !(j >= b || s[j] != ':') {
                    let k = ws_end(s, j + 1, b);
                    lemma_ws_end_bounds(s, j + 1, b);
                    lemma_field_value_bounds(s, k, b);
                    lemma_skip_value_bounds(s, k, b);
                    let step: Option<(SeasonRaw, int)> = if is_season_key(key) {
                        match field_value_at(s, k, b) {
                            Some(p) => Some((season_with(acc, key, p.0), p.1)),
                            None => None,
                        }
                    } else {
                        match skip_value_at(s, k, b) {
                            Some(e) => Some((acc, e)),
                            None => None,
                        }
                    };
                    match step {
                        None => {},
                        Some(st) => {
                            let m = ws_end(s, st.1, b);
                            lemma_ws_end_bounds(s, st.1, b);
                            if m < b && s[m] == '}' {
                            } else if m < b && s[m] == ',' {
                                let nx = ws_end(s, m + 1, b);
                                lemma_ws_end_bounds(s, m + 1, b);
                                lemma_season_members_bounds(s, nx, b, st.0);
                            }
                        },
                    }
                }
            },
        }
    }
}

/// Parse a whole body (up to `b`) as a points object; `None` when the body
/// is not a single JSON object.
pub open spec fn parse_points_at(s: Seq<char>, b: int) -> Option<PointsRaw> {
    let i = ws_end(s, 0, b);
    if i < b && i < s.len() && s[i] == '{' {
        let j = ws_end(s, i + 1, b);
        if j < b && j < s.len() && s[j] == '}' {
            if ws_end(s, j + 1, b) == b {
                Some(empty_points())
            } else {
                None
            }
        } else {
            match members_at(s, j, b, empty_points()) {
                Some(p) => {
                    if ws_end(s, p.1, b) == b {
                        Some(p.0)
                    } else {
                        None
                    }
                },
                None => None,
            }
        }
    } else {
        None
    }
}

/// What a whole response body says, or `None` when it is not a points
/// object at all.
pub open spec fn points_of_body(s: Seq<char>) -> Option<PointsRaw> {
    parse_points_at(s, s.len() as int)
}

fn field_value_exec(s: &Vec<char>, i: usize, b: usize) -> (r: Option<(FieldVal, usize)>)
    requires
        i <= b <= s.len(),
    ensures
        field_value_at(s@, i as int, b as int) == (match r {
            Some(p) => Some((p.0, p.1 as int)),
            None => None::<(FieldVal, int)>,
        }),
        r matches Some(p) ==> i < p.1 <= b,
{
    proof {
        lemma_field_value_bounds(s@, i as int, b as int);
    }
    if i >= b {
        return None;
    }
    let c = s[i];
    if c == '"' {
        match string_end_at(s, i + 1, b) {
            Some(e) => {
                let fv = match parse_decimal_range(s, i + 1, e - 1) {
                    Some(d) => FieldVal::Val(d),
                    None => FieldVal::Bad,
                };
                Some((fv, e))
            },
            None => None,
        }
    } else if ('0' <= c && c <= '9') || c == '-' {
        let e = num_end_at(s, i, b);
        let fv = match parse_decimal_range(s, i, e) {
            Some(d) => FieldVal::Val(d),
            None => FieldVal::Bad,
        };
        Some((fv, e))
    } else if c == '{' || c == '[' {
        match container_end_at(s, i + 1, b) {
            Some(e) => Some((FieldVal::Bad, e)),
            None => None,
        }
    } else if b - i >= 4 && span_eq_str(s, i, i + 4, "true") {
        Some((FieldVal::Bad, i + 4))
    } else if b - i >= 5 && span_eq_str(s, i, i + 5, "false") {
        Some((FieldVal::Bad, i + 5))
    } else if b - i >= 4 && span_eq_str(s, i, i + 4, "null") {
        Some((FieldVal::Bad, i + 4))
    } else {
        None
    }
}

fn skip_value_exec(s: &Vec<char>, i: usize, b: usize) -> (r: Option<usize>)
    requires
        i <= b <= s.len(),
    ensures
        skip_value_at(s@, i as int, b as int) == (match r {
            Some(e) => Some(e as int),
            None => None::<int>,
        }),
        r matches Some(e) ==> i < e <= b,
{
    proof {
        lemma_skip_value_bounds(s@, i as int, b as int);
    }
    if i >= b {
        return None;
    }
    let c = s[i];
    if c == '"' {
        string_end_at(s, i + 1, b)
    } else if ('0' <= c && c <= '9') || c == '-' {
        Some(num_end_at(s, i, b))
    } else if c == '{' || c == '[' {
        container_end_at(s, i + 1, b)
    } else if b - i >= 4 && span_eq_str(s, i, i + 4, "true") {
        Some(i + 4)
    } else if b - i >= 5 && span_eq_str(s, i, i + 5, "false") {
        Some(i + 5)
    } else if b - i >= 4 && span_eq_str(s, i, i + 4, "null") {
        Some(i + 4)
    } else {
        None
    }
}

fn season_members_exec(s: &Vec<char>, start: usize, b: usize, acc0: SeasonRaw) -> (r: Option<
    (SeasonRaw, usize),
>)
    requires
        start <= b <= s.len(),
    ensures
        season_members_at(s@, start as int, b as int, acc0) == (match r {
            Some(p) => Some((p.0, p.1 as int)),
            None => None::<(SeasonRaw, int)>,
        }),
        r matches Some(p) ==> p.1 <= b,
{
    let mut i: usize = start;
    let mut acc: SeasonRaw = acc0;
    loop
        invariant
            i <= b <= s.len(),
            season_members_at(s@, start as int, b as int, acc0) == season_members_at(
                s@,
                i as int,
                b as int,
                acc,
            ),
        decreases b - i,
    {
        if i >= b {
            return None;
        }
        if s[i] != '"' {
            return None;
        }
        let ke = match string_end_at(s, i + 1, b) {
            Some(e) => e,
            None => {
                return None;
            },
        };
        let ghost key = s@.subrange(i as int + 1, ke as int - 1);
        let j = ws_end_at(s, ke, b);
        if j >= b {
            return None;
        }
        if s[j] != ':' {
            return None;
        }
        let k = ws_end_at(s, j + 1, b);
        let ghost acc_old = acc;
        let e: usize;
        if span_eq_str(s, i + 1, ke - 1, "totalPoints") {
            match field_value_exec(s, k, b) {
                Some(p) => {
                    acc.total_points = p.0;
                    e = p.1;
                },
                None => {
                    return None;
                },
            }
        } else if span_eq_str(s, i + 1, ke - 1, "totalStakingPoints") {
            match field_value_exec(s, k, b) {
                Some(p) => {
                    acc.total_staking_points = p.0;
                    e = p.1;
                },
                None => {
                    return None;
                },
            }
        } else if span_eq_str(s, i + 1, ke - 1, "totalRefPoints") {
            match field_value_exec(s, k, b) {
                Some(p) => {
                    acc.total_ref_points = p.0;
                    e = p.1;
                },
                None => {
                    return None;
                },
            }
        } else if span_eq_str(s, i + 1, ke - 1, "totalPendlePoints") {
            match field_value_exec(s, k, b) {
                Some(p) => {
                    acc.total_pendle_points = p.0;
                    e = p.1;
                },
                None => {
                    return None;
                },
            }
        } else if span_eq_str(s, i + 1, ke - 1, "totalBuildPoints") {
            match field_value_exec(s, k, b) {
                Some(p) => {
                    acc.total_build_points = p.0;
                    e = p.1;
                },
                None => {
                    return None;
                },
            }
        } else {
            assert(!is_season_key(key));
            match skip_value_exec(s, k, b) {
                Some(e2) => {
                    e = e2;
                },
                None => {
                    return None;
                },
            }
        }
        let m = ws_end_at(s, e, b);
        if m < b && s[m] == '}' {
            return Some((acc, m + 1));
        }
        if m < b && s[m] == ',' {
            let nx = ws_end_at(s, m + 1, b);
            i = nx;
        } else {
            return None;
        }
    }
}

fn members_exec(s: &Vec<char>, start: usize, b: usize, acc0: PointsRaw) -> (r: Option<
    (PointsRaw, usize),
>)
    requires
        start <= b <= s.len(),
    ensures
        members_at(s@, start as int, b as int, acc0) == (match r {
            Some(p) => Some((p.0, p.1 as int)),
            None => None::<(PointsRaw, int)>,
        }),
        r matches Some(p) ==> p.1 <= b,
{
    let mut i: usize = start;
    let mut acc: PointsRaw = acc0;
    loop
        invariant
            i <= b <= s.len(),
            members_at(s@, start as int, b as int, acc0) == members_at(s@, i as int, b as int, acc),
        decreases b - i,
    {
        if i >= b {
            return None;
        }
        if s[i] != '"' {
            return None;
        }
        let ke = match string_end_at(s, i + 1, b) {
            Some(e) => e,
            None => {
                return None;
            },
        };
        let ghost key = s@.subrange(i as int + 1, ke as int - 1);
        let j = ws_end_at(s, ke, b);
        if j >= b {
            return None;
        }
        if s[j] != ':' {
            return None;
        }
        let k = ws_end_at(s, j + 1, b);
        let ghost acc_old = acc;
        let e: usize;
        if span_eq_str(s, i + 1, ke - 1, "totalPoints") {
            match field_value_exec(s, k, b) {
                Some(p) => {
                    acc.total_points = p.0;
                    e = p.1;
                },
                None => {
                    return None;
                },
            }
        } else if span_eq_str(s, i + 1, ke - 1, "totalStakingPoints") {
            match field_value_exec(s, k, b) {
                Some(p) => {
                    acc.total_staking_points = p.0;
                    e = p.1;
                },
                None => {
                    return None;
                },
            }
        } else if span_eq_str(s, i + 1, ke - 1, "totalRefPoints") {
            match field_value_exec(s, k, b) {
                Some(p) => {
                    acc.total_ref_points = p.0;
                    e = p.1;
                },
                None => {
                    return None;
                },
            }
        } else if span_eq_str(s, i + 1, ke - 1, "totalBuildPoints") {
            match field_value_exec(s, k, b) {
                Some(p) => {
                    acc.total_build_points = p.0;
                    e = p.1;
                },
                None => {
                    return None;
                },
            }
        } else if span_eq_str(s, i + 1, ke - 1, "totalRefBuildPoints") {
            match field_value_exec(s, k, b) {
                Some(p) => {
                    acc.total_ref_build_points = p.0;
                    e = p.1;
                },
                None => {
                    return None;
                },
            }
        } else if span_eq_str(s, i + 1, ke - 1, "totalPendlePoints") {
            match field_value_exec(s, k, b) {
                Some(p) => {
                    acc.total_pendle_points = p.0;
                    e = p.1;
                },
                None => {
                    return None;
                },
            }
        } else if span_eq_str(s, i + 1, ke - 1, "season1Points") {
            assert(!is_top_key(key));
            if k < b && s[k] == '{' {
                let j2 = ws_end_at(s, k + 1, b);
                if j2 < b && s[j2] == '}' {
                    acc.season1_points = SeasonVal::Obj(season_raw_empty());
                    e = j2 + 1;
                } else {
                    match season_members_exec(s, j2, b, season_raw_empty()) {
                        Some(p) => {
                            proof {
                                lemma_season_members_bounds(
                                    s@,
                                    j2 as int,
                                    b as int,
                                    empty_season(),
                                );
                            }
                            acc.season1_points = SeasonVal::Obj(p.0);
                            e = p.1;
                        },
                        None => {
                            return None;
                        },
                    }
                }
            } else {
                match skip_value_exec(s, k, b) {
                    Some(e2) => {
                        acc.season1_points = SeasonVal::Bad;
                        e = e2;
                    },
                    None => {
                        return None;
                    },
                }
            }
        } else {
            assert(!is_top_key(key));
            assert(key != "season1Points"@);
            match skip_value_exec(s, k, b) {
                Some(e2) => {
                    e = e2;
                },
                None => {
                    return None;
                },
            }
        }
        let m = ws_end_at(s, e, b);
        if m < b && s[m] == '}' {
            return Some((acc, m + 1));
        }
        if m < b && s[m] == ',' {
            let nx = ws_end_at(s, m + 1, b);
            i = nx;
        } else {
            return None;
        }
    }
}

/// Parse a whole body as a points object, exactly as `points_of_body` says.
pub fn parse_points_body(body: &Vec<char>) -> (r: Option<PointsRaw>)
    ensures
        r == points_of_body(body@),
{
    let b = body.len();
    let i = ws_end_at(body, 0, b);
    if i < b && body[i] == '{' {
        let j = ws_end_at(body, i + 1, b);
        if j < b && body[j] == '}' {
            if ws_end_at(body, j + 1, b) == b {
                Some(points_raw_empty())
            } else {
                None
            }
        } else {
            match members_exec(body, j, b, points_raw_empty()) {
                Some(p) => {
                    if ws_end_at(body, p.1, b) == b {
                        Some(p.0)
                    } else {
                        None
                    }
                },
                None => None,
            }
        }
    } else {
        None
    }
}

} // verus!
