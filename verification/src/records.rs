//! Fetch records.
//!
//! A `User` is the record produced by one successful fetch: the identifier
//! (a wallet address) and the two seasons' totals. A total the body did not
//! mention defaults to zero; a body that is not a points object at all
//! yields the all-zero record rather than an error; a recognised total that
//! cannot be read as a decimal refuses the attempt, which the retry policy
//! may repeat.

use vstd::prelude::*;
use crate::decimal::Decimal;
use crate::points::FieldVal;
use crate::points::PointsRaw;
use crate::points::SeasonRaw;
use crate::points::SeasonVal;
use crate::points::empty_points;
use crate::points::empty_season;
use crate::points::points_of_body;
use crate::points::points_raw_empty;
use crate::points::parse_points_body;
use crate::points::raw_has_bad;
use crate::points::season_raw_empty;
use crate::points::season_has_bad;
use crate::scan::chars_of;

verus! {

/// First-season totals of one record.
#[derive(Debug, Clone, PartialEq)]
pub struct UserSeason1 {
    pub address: String,
    pub total_points: Decimal,
    pub total_staking_points: Decimal,
    pub total_ref_points: Decimal,
    pub total_pendle_points: Decimal,
    pub total_build_points: Decimal,
}

/// Second-season totals of one record.
#[derive(Debug, Clone, PartialEq)]
pub struct UserSeason2 {
    pub address: String,
    pub total_points: Decimal,
    pub total_staking_points: Decimal,
    pub total_ref_points: Decimal,
    pub total_build_points: Decimal,
    pub total_ref_build_points: Decimal,
    pub total_pendle_points: Decimal,
}

/// The record of one fetched identifier.
#[derive(Debug, Clone, PartialEq)]
pub struct User {
    pub address: String,
    pub season1: UserSeason1,
    pub season2: UserSeason2,
}

/// Why one fetch attempt failed. A transport fault and a bad status come
/// from the caller driving the request; an unreadable total comes from the
/// body itself. All are retryable.
#[derive(Debug, Clone, PartialEq)]
pub enum FetchError {
    Transport(String),
    BadStatus(u16),
    UnreadableField,
}

pub open spec fn field_or_zero(fv: FieldVal) -> Decimal {
    match fv {
        FieldVal::Val(d) => d,
        _ => Decimal::spec_zero(),
    }
}

pub open spec fn season_of_raw(sv: SeasonVal) -> SeasonRaw {
    match sv {
        SeasonVal::Obj(sr) => sr,
        _ => empty_season(),
    }
}

/// The first-season part of a record carries `addr` and each total the body
/// gave, zero where it gave none.
pub open spec fn season1_matches(s1: UserSeason1, addr: Seq<char>, sr: SeasonRaw) -> bool {
    &&& s1.address@ == addr
    &&& s1.total_points == field_or_zero(sr.total_points)
    &&& s1.total_staking_points == field_or_zero(sr.total_staking_points)
    &&& s1.total_ref_points == field_or_zero(sr.total_ref_points)
    &&& s1.total_pendle_points == field_or_zero(sr.total_pendle_points)
    &&& s1.total_build_points == field_or_zero(sr.total_build_points)
}

/// The second-season part of a record carries `addr` and each top-level
/// total the body gave, zero where it gave none.
pub open spec fn season2_matches(s2: UserSeason2, addr: Seq<char>, p: PointsRaw) -> bool {
    &&& s2.address@ == addr
    &&& s2.total_points == field_or_zero(p.total_points)
    &&& s2.total_staking_points == field_or_zero(p.total_staking_points)
    &&& s2.total_ref_points == field_or_zero(p.total_ref_points)
    &&& s2.total_build_points == field_or_zero(p.total_build_points)
    &&& s2.total_ref_build_points == field_or_zero(p.total_ref_build_points)
    &&& s2.total_pendle_points == field_or_zero(p.total_pendle_points)
}

/// The record `u` is exactly what the raw response `p` says for `addr`.
pub open spec fn user_matches(u: User, addr: Seq<char>, p: PointsRaw) -> bool {
    &&& u.address@ == addr
    &&& season1_matches(u.season1, addr, season_of_raw(p.season1_points))
    &&& season2_matches(u.season2, addr, p)
}

/// The documented default: every total zero.
pub open spec fn user_is_default(u: User, addr: Seq<char>) -> bool {
    user_matches(u, addr, empty_points())
}

fn or_zero(fv: FieldVal) -> (r: Decimal)
    ensures
        r == field_or_zero(fv),
{
    match fv {
        FieldVal::Val(d) => d,
        _ => Decimal::zero(),
    }
}

fn season_bad(sr: &SeasonRaw) -> (r: bool)
    ensures
        r == season_has_bad(*sr),
{
    matches!(sr.total_points, FieldVal::Bad) || matches!(sr.total_staking_points, FieldVal::Bad)
        || matches!(sr.total_ref_points, FieldVal::Bad) || matches!(
        sr.total_pendle_points,
        FieldVal::Bad,
    ) || matches!(sr.total_build_points, FieldVal::Bad)
}

fn raw_bad(p: &PointsRaw) -> (r: bool)
    ensures
        r == raw_has_bad(*p),
{
    if matches!(p.total_points, FieldVal::Bad) || matches!(p.total_staking_points, FieldVal::Bad)
        || matches!(p.total_ref_points, FieldVal::Bad) || matches!(
        p.total_build_points,
        FieldVal::Bad,
    ) || matches!(p.total_ref_build_points, FieldVal::Bad) || matches!(
        p.total_pendle_points,
        FieldVal::Bad,
    ) {
        return true;
    }
    match &p.season1_points {
        SeasonVal::Missing => false,
        SeasonVal::Obj(sr) => season_bad(sr),
        SeasonVal::Bad => true,
    }
}

impl User {
    /// Build the record for `address` from a raw response: absent totals
    /// become zero, and any unreadable total refuses the whole record.
    pub fn new(address: &str, raw: &PointsRaw) -> (r: Result<User, FetchError>)
        ensures
            raw_has_bad(*raw) ==> (r matches Err(e) && e == FetchError::UnreadableField),
            !raw_has_bad(*raw) ==> (r matches Ok(u) && user_matches(u, address@, *raw)),
    {
        if raw_bad(raw) {
            return Err(FetchError::UnreadableField);
        }
        let sr = match &raw.season1_points {
            SeasonVal::Obj(sr) => *sr,
            _ => season_raw_empty(),
        };
        let season1 = UserSeason1 {
            address: address.to_owned(),
            total_points: or_zero(sr.total_points),
            total_staking_points: or_zero(sr.total_staking_points),
            total_ref_points: or_zero(sr.total_ref_points),
            total_pendle_points: or_zero(sr.total_pendle_points),
            total_build_points: or_zero(sr.total_build_points),
        };
        let season2 = UserSeason2 {
            address: address.to_owned(),
            total_points: or_zero(raw.total_points),
            total_staking_points: or_zero(raw.total_staking_points),
            total_ref_points: or_zero(raw.total_ref_points),
            total_build_points: or_zero(raw.total_build_points),
            total_ref_build_points: or_zero(raw.total_ref_build_points),
            total_pendle_points: or_zero(raw.total_pendle_points),
        };
        Ok(User { address: address.to_owned(), season1, season2 })
    }
}

impl User {
    /// Rejoin the two season halves of one checkpoint row; they must name
    /// the same identifier.
    pub fn from_seasons(s1: UserSeason1, s2: UserSeason2) -> (r: Option<User>)
        ensures
            s1.address@ == s2.address@ ==> (r matches Some(u) && u.address@ == s1.address@
                && u.season1 == s1 && u.season2 == s2),
            s1.address@ != s2.address@ ==> r is None,
    {
        if s1.address == s2.address {
            let address = s1.address.clone();
            Some(User { address, season1: s1, season2: s2 })
        } else {
            None
        }
    }
}

/// One attempt's record for `address`, given the text the points endpoint
/// answered. A body that is not a points object yields the all-zero default
/// record; an unreadable total yields the retryable error instead.
pub fn fetch_user_info(address: &str, body: &str) -> (r: Result<User, FetchError>)
    ensures
        match points_of_body(body@) {
            Some(raw) => {
                &&& raw_has_bad(raw) ==> (r matches Err(e) && e == FetchError::UnreadableField)
                &&& !raw_has_bad(raw) ==> (r matches Ok(u) && user_matches(u, address@, raw))
            },
            None => r matches Ok(u) && user_is_default(u, address@),
        },
{
    let chars = chars_of(body);
    match parse_points_body(&chars) {
        Some(raw) => User::new(address, &raw),
        None => {
            let empty = points_raw_empty();
            User::new(address, &empty)
        },
    }
}

} // verus!
