//! The frozen working set.
//!
//! Before a run starts, the identifiers from the source are cleaned (empty
//! entries dropped, duplicates collapsed to their first occurrence) and the
//! working set is built: exactly the cleaned identifiers that are neither in
//! the exclusion set (compared without regard to ASCII case, as addresses
//! are written in mixed case) nor already in the checkpoint. The order of
//! first appearance is kept, so a resumed run walks the same list.

use vstd::prelude::*;
use crate::records::User;

verus! {

/// ASCII lowercase of one character.
pub open spec fn lower_char(c: char) -> char {
    if 'A' <= c && c <= 'Z' {
        ((c as u32) + 32) as char
    } else {
        c
    }
}

pub open spec fn lower(s: Seq<char>) -> Seq<char> {
    Seq::new(s.len(), |i: int| lower_char(s[i]))
}

/// Equality of identifiers without regard to ASCII case.
pub open spec fn eq_ignore_case(a: Seq<char>, b: Seq<char>) -> bool {
    lower(a) == lower(b)
}

fn lower_code(c: char) -> (r: u32)
    ensures
        r == lower_char(c) as u32,
{
    if 'A' <= c && c <= 'Z' {
        proof {
            assert('A' as u32 == 65 && 'Z' as u32 == 90);
            assert((((c as u32) + 32) as char) as u32 == (c as u32) + 32);
        }
        (c as u32) + 32
    } else {
        c as u32
    }
}

/// Whether `a` and `b` spell the same identifier, ASCII case aside.
pub fn str_eq_ignore_case(a: &str, b: &str) -> (r: bool)
    ensures
        r == eq_ignore_case(a@, b@),
{
    let na = a.unicode_len();
    let nb = b.unicode_len();
    if na != nb {
        assert(lower(a@).len() != lower(b@).len());
        return false;
    }
    let mut i: usize = 0;
    while i < na
        invariant
            i <= na,
            na == a@.len() && na == b@.len(),
            forall|k: int| 0 <= k < i ==> lower(a@)[k] == lower(b@)[k],
        decreases na - i,
    {
        let ca = a.get_char(i);
        let cb = b.get_char(i);
        if lower_code(ca) != lower_code(cb) {
            assert(lower(a@)[i as int] != lower(b@)[i as int]);
            return false;
        }
        assert(lower(a@)[i as int] == lower(b@)[i as int]);
        i += 1;
    }
    assert(lower(a@) =~= lower(b@));
    true
}

/// Whether `u` is one of the excluded identifiers.
pub open spec fn excluded(ex: Seq<Seq<char>>, u: Seq<char>) -> bool {
    exists|k: int| 0 <= k < ex.len() && eq_ignore_case(ex[k], u)
}

/// Whether the checkpoint already holds a record for `u`.
pub open spec fn in_checkpoint(cp: Seq<User>, u: Seq<char>) -> bool {
    exists|k: int| 0 <= k < cp.len() && cp[k].address@ == u
}

/// No two of the identifiers are equal.
pub open spec fn distinct_seqs(xs: Seq<Seq<char>>) -> bool {
    forall|i: int, j: int| 0 <= i < j < xs.len() ==> xs[i] != xs[j]
}

/// The cleaned source output: empty entries dropped, each identifier kept
/// at its first occurrence only.
pub open spec fn cleaned(ids: Seq<Seq<char>>) -> Seq<Seq<char>>
    decreases ids.len(),
{
    if ids.len() == 0 {
        Seq::empty()
    } else {
        let prefix = cleaned(ids.drop_last());
        if ids.last().len() != 0 && !prefix.contains(ids.last()) {
            prefix.push(ids.last())
        } else {
            prefix
        }
    }
}

/// The cleaned sequence holds an identifier exactly when the source did and
/// it is not empty — and holds it once.
pub proof fn lemma_cleaned_exact(ids: Seq<Seq<char>>)
    ensures
        distinct_seqs(cleaned(ids)),
        forall|u: Seq<char>| #[trigger] cleaned(ids).contains(u) <==> (ids.contains(u) && u.len()
            != 0),
    decreases ids.len(),
{
    if ids.len() == 0 {
        assert forall|u: Seq<char>| #[trigger] cleaned(ids).contains(u) implies false by {}
        assert forall|u: Seq<char>| ids.contains(u) implies false by {}
    } else {
        let prefix = cleaned(ids.drop_last());
        lemma_cleaned_exact(ids.drop_last());
        let all = cleaned(ids);
        assert forall|u: Seq<char>| #[trigger] all.contains(u) implies (ids.contains(u) && u.len()
            != 0) by {
            if prefix.contains(u) {
                assert(ids.drop_last().contains(u));
                let k = choose|k: int| 0 <= k < ids.drop_last().len() && ids.drop_last()[k] == u;
                assert(ids[k] == u);
            } else {
                assert(u == ids.last());
                assert(ids[ids.len() - 1] == u);
            }
        }
        assert forall|u: Seq<char>| ids.contains(u) && u.len() != 0 implies #[trigger] all.contains(
            u,
        ) by {
            let k = choose|k: int| 0 <= k < ids.len() && ids[k] == u;
            if k < ids.len() - 1 {
                assert(ids.drop_last()[k] == u);
                assert(ids.drop_last().contains(u));
                assert(prefix.contains(u));
                if ids.last().len() != 0 && !prefix.contains(ids.last()) {
                    let t = choose|t: int| 0 <= t < prefix.len() && prefix[t] == u;
                    assert(all[t] == u);
                } else {
                    assert(all == prefix);
                }
            } else {
                assert(u == ids.last());
                if !prefix.contains(u) {
                    assert(all[all.len() - 1] == u);
                } else {
                    let t = choose|t: int| 0 <= t < prefix.len() && prefix[t] == u;
                    assert(all[t] == u);
                }
            }
        }
        if ids.last().len() != 0 && !prefix.contains(ids.last()) {
            assert forall|i: int, j: int| 0 <= i < j < all.len() implies all[i] != all[j] by {
                if j == all.len() - 1 {
                    assert(all[i] == prefix[i]);
                    assert(prefix.contains(prefix[i]));
                }
            }
        }
    }
}

/// Drop empty identifiers and collapse duplicates to the first occurrence.
pub fn clean_identifiers(ids: &Vec<String>) -> (r: Vec<String>)
    ensures
        r.deep_view() == cleaned(ids.deep_view()),
{
    let mut out: Vec<String> = Vec::new();
    let mut i: usize = 0;
    proof {
        assert(ids.deep_view().take(0) =~= Seq::<Seq<char>>::empty());
        assert(out.deep_view() =~= cleaned(ids.deep_view().take(0)));
    }
    while i < ids.len()
        invariant
            i <= ids.len(),
            out.deep_view() == cleaned(ids.deep_view().take(i as int)),
        decreases ids.len() - i,
    {
        let ghost pre = ids.deep_view().take(i as int);
        proof {
            assert(ids.deep_view().take(i + 1).drop_last() =~= pre);
            assert(ids.deep_view().take(i + 1).last() == ids@[i as int]@);
        }
        let u = &ids[i];
        if u.as_str().is_empty() {
            proof {
                assert(cleaned(ids.deep_view().take(i + 1)) == out.deep_view());
            }
        } else {
            let dup = contains_string(&out, u);
            proof {
                assert forall|k: int| 0 <= k < out.len() implies out.deep_view()[k] == out@[k]@ by {}
                if dup {
                    let k = choose|k: int| 0 <= k < out@.len() && out@[k]@ == u@;
                    assert(out.deep_view()[k] == u@);
                }
                if out.deep_view().contains(u@) {
                    let k = choose|k: int| 0 <= k < out.deep_view().len() && out.deep_view()[k] == u@;
                    assert(out@[k]@ == u@);
                }
                assert(dup == out.deep_view().contains(u@));
            }
            if !dup {
                out.push(u.clone());
                proof {
                    assert(out.deep_view() =~= cleaned(ids.deep_view().take(i + 1)));
                }
            }
        }
        i += 1;
    }
    proof {
        assert(ids.deep_view().take(ids@.len() as int) =~= ids.deep_view());
    }
    out
}

/// The working set: the identifiers of `ids`, in order, that are neither
/// excluded nor already in the checkpoint.
pub open spec fn working_set_of(ids: Seq<Seq<char>>, ex: Seq<Seq<char>>, cp: Seq<User>) -> Seq<
    Seq<char>,
>
    decreases ids.len(),
{
    if ids.len() == 0 {
        Seq::empty()
    } else {
        let prefix = working_set_of(ids.drop_last(), ex, cp);
        if !excluded(ex, ids.last()) && !in_checkpoint(cp, ids.last()) {
            prefix.push(ids.last())
        } else {
            prefix
        }
    }
}

/// What stands in the working set: exactly the identifiers of the source
/// that are neither excluded nor checkpointed. In particular a resumed run
/// never fetches an identifier its checkpoint already holds.
pub proof fn lemma_working_set_membership(
    ids: Seq<Seq<char>>,
    ex: Seq<Seq<char>>,
    cp: Seq<User>,
)
    ensures
        forall|u: Seq<char>| #[trigger] working_set_of(ids, ex, cp).contains(u) <==> (ids.contains(
            u,
        ) && !excluded(ex, u) && !in_checkpoint(cp, u)),
    decreases ids.len(),
{
    let ws = working_set_of(ids, ex, cp);
    if ids.len() == 0 {
        assert forall|u: Seq<char>| #[trigger] ws.contains(u) implies false by {}
        assert forall|u: Seq<char>| ids.contains(u) implies false by {}
    } else {
        let prefix = working_set_of(ids.drop_last(), ex, cp);
        lemma_working_set_membership(ids.drop_last(), ex, cp);
        assert forall|u: Seq<char>| #[trigger] ws.contains(u) implies (ids.contains(u) && !excluded(
            ex,
            u,
        ) && !in_checkpoint(cp, u)) by {
            if prefix.contains(u) {
                assert(ids.drop_last().contains(u));
                let k = choose|k: int| 0 <= k < ids.drop_last().len() && ids.drop_last()[k] == u;
                assert(ids[k] == u);
            } else {
                assert(u == ids.last());
                assert(ids[ids.len() - 1] == u);
            }
        }
        assert forall|u: Seq<char>|
            ids.contains(u) && !excluded(ex, u) && !in_checkpoint(cp, u) implies #[trigger] ws
            .contains(u) by {
            let k = choose|k: int| 0 <= k < ids.len() && ids[k] == u;
            if k < ids.len() - 1 {
                assert(ids.drop_last()[k] == u);
                assert(ids.drop_last().contains(u));
                assert(prefix.contains(u));
                let t = choose|t: int| 0 <= t < prefix.len() && prefix[t] == u;
                assert(ws[t] == u);
            } else {
                assert(u == ids.last());
                assert(ws[ws.len() - 1] == u);
            }
        }
    }
}

/// A resumed run never fetches what its checkpoint already holds: no
/// identifier of the working set lies in the checkpoint.
pub proof fn lemma_resume_never_refetches(
    ids: Seq<Seq<char>>,
    ex: Seq<Seq<char>>,
    cp: Seq<User>,
    u: Seq<char>,
)
    requires
        working_set_of(ids, ex, cp).contains(u),
    ensures
        !in_checkpoint(cp, u),
{
    lemma_working_set_membership(ids, ex, cp);
}

/// A working set built from distinct identifiers is itself distinct, so no
/// identifier can be claimed under two indices.
pub proof fn lemma_working_set_distinct(ids: Seq<Seq<char>>, ex: Seq<Seq<char>>, cp: Seq<User>)
    requires
        distinct_seqs(ids),
    ensures
        distinct_seqs(working_set_of(ids, ex, cp)),
    decreases ids.len(),
{
    let ws = working_set_of(ids, ex, cp);
    if ids.len() > 0 {
        let prefix = working_set_of(ids.drop_last(), ex, cp);
        assert(distinct_seqs(ids.drop_last())) by {
            assert forall|i: int, j: int|
                0 <= i < j < ids.drop_last().len() implies ids.drop_last()[i] != ids.drop_last()[j]
                by {
                assert(ids[i] == ids.drop_last()[i] && ids[j] == ids.drop_last()[j]);
            }
        }
        lemma_working_set_distinct(ids.drop_last(), ex, cp);
        if !excluded(ex, ids.last()) && !in_checkpoint(cp, ids.last()) {
            assert(!prefix.contains(ids.last())) by {
                lemma_working_set_membership(ids.drop_last(), ex, cp);
                if prefix.contains(ids.last()) {
                    assert(ids.drop_last().contains(ids.last()));
                    let k = choose|k: int|
                        0 <= k < ids.drop_last().len() && ids.drop_last()[k] == ids.last();
                    assert(ids[k] == ids[ids.len() - 1]);
                }
            }
            assert forall|i: int, j: int| 0 <= i < j < ws.len() implies ws[i] != ws[j] by {
                if j == ws.len() - 1 {
                    assert(ws[i] == prefix[i]);
                    assert(prefix.contains(prefix[i]));
                }
            }
        }
    }
}

fn contains_string(v: &Vec<String>, u: &String) -> (r: bool)
    ensures
        r == (exists|k: int| 0 <= k < v@.len() && v@[k]@ == u@),
{
    let mut k: usize = 0;
    while k < v.len()
        invariant
            k <= v.len(),
            forall|t: int| 0 <= t < k ==> v@[t]@ != u@,
        decreases v.len() - k,
    {
        if v[k] == *u {
            assert(v@[k as int]@ == u@);
            return true;
        }
        k += 1;
    }
    false
}

fn is_excluded(exclusions: &Vec<String>, u: &String) -> (r: bool)
    ensures
        r == excluded(exclusions.deep_view(), u@),
{
    proof {
        assert forall|t: int| 0 <= t < exclusions.len() implies exclusions.deep_view()[t]
            == exclusions@[t]@ by {}
    }
    let mut k: usize = 0;
    while k < exclusions.len()
        invariant
            k <= exclusions.len(),
            forall|t: int| 0 <= t < k ==> !eq_ignore_case(exclusions@[t]@, u@),
        decreases exclusions.len() - k,
    {
        if str_eq_ignore_case(exclusions[k].as_str(), u.as_str()) {
            assert(eq_ignore_case(exclusions.deep_view()[k as int], u@));
            return true;
        }
        k += 1;
    }
    assert forall|t: int| 0 <= t < exclusions.deep_view().len() implies !eq_ignore_case(
        exclusions.deep_view()[t],
        u@,
    ) by {}
    false
}

fn is_in_checkpoint(checkpoint: &Vec<User>, u: &String) -> (r: bool)
    ensures
        r == in_checkpoint(checkpoint@, u@),
{
    let mut k: usize = 0;
    while k < checkpoint.len()
        invariant
            k <= checkpoint.len(),
            forall|t: int| 0 <= t < k ==> checkpoint@[t].address@ != u@,
        decreases checkpoint.len() - k,
    {
        if checkpoint[k].address == *u {
            assert(checkpoint@[k as int].address@ == u@);
            return true;
        }
        k += 1;
    }
    false
}

/// Build the frozen working set: the identifiers that are neither excluded
/// nor already checkpointed, in their given order.
pub fn build_working_set(ids: &Vec<String>, exclusions: &Vec<String>, checkpoint: &Vec<User>) -> (r:
    Vec<String>)
    ensures
        r.deep_view() == working_set_of(ids.deep_view(), exclusions.deep_view(), checkpoint@),
{
    let mut out: Vec<String> = Vec::new();
    let mut i: usize = 0;
    proof {
        assert(ids.deep_view().take(0) =~= Seq::<Seq<char>>::empty());
        assert(out.deep_view() =~= working_set_of(
            ids.deep_view().take(0),
            exclusions.deep_view(),
            checkpoint@,
        ));
    }
    while i < ids.len()
        invariant
            i <= ids.len(),
            out.deep_view() == working_set_of(
                ids.deep_view().take(i as int),
                exclusions.deep_view(),
                checkpoint@,
            ),
        decreases ids.len() - i,
    {
        let ghost pre = ids.deep_view().take(i as int);
        proof {
            assert(ids.deep_view().take(i + 1).drop_last() =~= pre);
            assert(ids.deep_view().take(i + 1).last() == ids@[i as int]@);
        }
        let u = &ids[i];
        if !is_excluded(exclusions, u) && !is_in_checkpoint(checkpoint, u) {
            out.push(u.clone());
            proof {
                assert(out.deep_view() =~= working_set_of(
                    ids.deep_view().take(i + 1),
                    exclusions.deep_view(),
                    checkpoint@,
                ));
            }
        }
        i += 1;
    }
    proof {
        assert(ids.deep_view().take(ids@.len() as int) =~= ids.deep_view());
    }
    out
}

/// The address of each row of one source page, the empty string where the
/// row carries none.
pub fn row_addresses(rows: Vec<Option<String>>) -> (r: Vec<String>)
    ensures
        r@.len() == rows@.len(),
        forall|i: int| 0 <= i < rows@.len() ==> r@[i]@ == (match rows@[i] {
            Some(s) => s@,
            None => Seq::<char>::empty(),
        }),
{
    let mut out: Vec<String> = Vec::new();
    let n = rows.len();
    let mut rest = rows;
    let mut i: usize = 0;
    while i < rest.len()
        invariant
            i <= rest.len(),
            out@.len() == i,
            forall|k: int| 0 <= k < i ==> out@[k]@ == (match rest@[k] {
                Some(s) => s@,
                None => Seq::<char>::empty(),
            }),
        decreases rest.len() - i,
    {
        let entry: Option<String> = rest[i].clone();
        match entry {
            Some(s) => {
                proof {
                    assert(rest@[i as int] matches Some(t) && t@ == s@);
                }
                out.push(s);
            },
            None => {
                out.push(String::new());
            },
        }
        i += 1;
    }
    out
}

} // verus!
