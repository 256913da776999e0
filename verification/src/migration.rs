//! What a complete migration of the legacy skills table does: the requests
//! it makes while it runs, read off the replies it was given.
use vstd::prelude::*;

use crate::skill_store::{
    as_done, as_rendered, as_text, ask, backup_dir, legacy_manifest, manifest_path, ownerless_from, s_migrate,
    s_migrate_from, s_migrate_row, Asked, LegacyRowV, SkillStoreV, StoreOpV, StoreReplyV,
};
use crate::skills::StoreErrorV;
use crate::store_replay::{lemma_ask_stable, starts_with};

verus! {

/// A request answered from a log is answered the same from any part of the
/// log that still holds that reply.
pub broadcast proof fn lemma_ask_truncate(rs: Seq<StoreReplyV>, c: nat, op: StoreOpV, t: int)
    requires
        c < t <= rs.len(),
    ensures
        #[trigger] ask(rs.take(t), c, op) == ask(rs, c, op),
{
}

/// A legacy row answered from a log is answered the same from any part of
/// the log that still holds every reply it used.
proof fn lemma_row_truncate(st: SkillStoreV, rs: Seq<StoreReplyV>, c: nat, row: LegacyRowV, t: int)
    requires
        s_migrate_row(st, rs, c, row) matches Asked::Answered(_, c2) && c2 <= t,
        t <= rs.len(),
    ensures
        s_migrate_row(st, rs.take(t), c, row) == s_migrate_row(st, rs, c, row),
{
    broadcast use lemma_ask_truncate;

}

/// The owner a legacy row is migrated for.
pub open spec fn row_owner(row: LegacyRowV) -> u128 {
    match row.owner {
        Some(o) => o,
        None => 0,
    }
}

/// With the replies up to `t`, the evaluation `w` asks for the request that
/// puts `row` in place: it writes the row, rendered by the request three
/// before, as the `SKILL.md` of a new bundle; or it writes a backup under
/// `skill-migration-conflicts/`; or it reads the bundle already there and
/// finds the very text the row renders to (the request just before). The
/// write succeeds, or the read returns that text. Every request named here
/// comes at `from` or later.
pub open spec fn lands(
    w: spec_fn(int) -> Asked<Result<(), StoreErrorV>>,
    rs: Seq<StoreReplyV>,
    row: LegacyRowV,
    t: int,
    from: int,
) -> bool {
    let owner = row_owner(row);
    ||| (from <= t - 3 && (w(t) matches Asked::Waiting(StoreOpV::Write(o, p, x)) && o == owner && p == manifest_path(
        row.name,
    ) && as_done(rs[t]) is Ok && w(t - 3) == Asked::<Result<(), StoreErrorV>>::Waiting(
        StoreOpV::Render(legacy_manifest(row), row.content),
    ) && as_rendered(rs[t - 3]) == Ok::<Seq<char>, StoreErrorV>(x)))
    ||| (from <= t && (w(t) matches Asked::Waiting(StoreOpV::Write(o, p, _)) && o == owner && p == backup_dir(
        row.id,
        row.name,
    ) + "/SKILL.md"@ && as_done(rs[t]) is Ok))
    ||| (from <= t - 1 && w(t) == Asked::<Result<(), StoreErrorV>>::Waiting(StoreOpV::Read(owner, manifest_path(row.name)))
        && w(t - 1) == Asked::<Result<(), StoreErrorV>>::Waiting(
        StoreOpV::Render(legacy_manifest(row), row.content),
    ) && (as_text(rs[t]) matches Ok(y) && as_rendered(rs[t - 1]) == Ok::<Seq<char>, StoreErrorV>(y)))
}

/// A row's evaluation with the replies up to `t`.
pub open spec fn row_at(st: SkillStoreV, rs: Seq<StoreReplyV>, c: nat, row: LegacyRowV) -> spec_fn(int) -> Asked<
    Result<(), StoreErrorV>,
> {
    |t: int| s_migrate_row(st, rs.take(t), c, row)
}

proof fn lemma_row_cursor_bound(st: SkillStoreV, rs: Seq<StoreReplyV>, c: nat, row: LegacyRowV)
    requires
        st.storage,
    ensures
        s_migrate_row(st, rs, c, row) matches Asked::Answered(_, c2) ==> c < c2 <= rs.len(),
{
}

/// While the replies a row used are not all there, the row waits.
proof fn lemma_row_waits(st: SkillStoreV, rs: Seq<StoreReplyV>, cs: nat, row: LegacyRowV, ce: nat)
    requires
        st.storage,
        s_migrate_row(st, rs, cs, row) == Asked::Answered(Ok::<(), StoreErrorV>(()), ce),
    ensures
        cs < ce <= rs.len(),
        forall|t: int| cs <= t < ce ==> (#[trigger] s_migrate_row(st, rs.take(t), cs, row)) is Waiting,
{
    lemma_row_cursor_bound(st, rs, cs, row);
    assert forall|t: int| cs <= t < ce implies (#[trigger] s_migrate_row(st, rs.take(t), cs, row)) is Waiting by {
        broadcast use lemma_ask_stable;

        let short = rs.take(t);
        lemma_row_cursor_bound(st, short, cs, row);
        assert(starts_with(rs, short));
        if s_migrate_row(st, short, cs, row) is Answered {
            assert(s_migrate_row(st, rs, cs, row) == s_migrate_row(st, short, cs, row));
        }
    }
}

/// The last thing a migrated row asks for is that it be deleted, and that
/// succeeds; before, it put the row in place.
#[verifier::rlimit(50)]
proof fn lemma_row_outcome(st: SkillStoreV, rs: Seq<StoreReplyV>, cs: nat, row: LegacyRowV, ce: nat)
    requires
        st.storage,
        s_migrate_row(st, rs, cs, row) == Asked::Answered(Ok::<(), StoreErrorV>(()), ce),
    ensures
        cs + 1 < ce <= rs.len(),
        s_migrate_row(st, rs.take(ce - 1), cs, row) == Asked::<Result<(), StoreErrorV>>::Waiting(
            StoreOpV::DeleteLegacy(row.id),
        ),
        as_done(rs[ce - 1]) is Ok,
        exists|t: int| cs + 1 <= t < ce - 1 && #[trigger] lands(row_at(st, rs, cs, row), rs, row, t, cs as int),
{
    broadcast use lemma_ask_truncate;

    lemma_row_cursor_bound(st, rs, cs, row);
    let w = row_at(st, rs, cs, row);
    let c2: int = cs as int + 1;
    let c3: int = c2 + 1;
    let r1 = rs[c2];
    match as_rendered(r1) {
        Err(_) => {
            let c4: int = c3 + 1;
            assert(w(c4 + 1) == s_migrate_row(st, rs.take(c4 + 1), cs, row));
            assert(lands(w, rs, row, c4 + 1, cs as int));
        },
        Ok(raw) => {
            if crate::skill_store::system_index(st.system, row.name) is Some {
                assert(w(c3 + 1) == s_migrate_row(st, rs.take(c3 + 1), cs, row));
                assert(lands(w, rs, row, c3 + 1, cs as int));
            } else {
                let c4: int = c3 + 1;
                match as_text(rs[c3]) {
                    Ok(existing) => {
                        if existing != raw {
                            assert(w(c4 + 1) == s_migrate_row(st, rs.take(c4 + 1), cs, row));
                            assert(lands(w, rs, row, c4 + 1, cs as int));
                        } else {
                            assert(w(c3) == s_migrate_row(st, rs.take(c3), cs, row));
                            assert(w(c2) == s_migrate_row(st, rs.take(c2), cs, row));
                            assert(lands(w, rs, row, c3, cs as int));
                        }
                    },
                    Err(_) => {
                        assert(w(c4 + 1) == s_migrate_row(st, rs.take(c4 + 1), cs, row));
                        assert(w(c2) == s_migrate_row(st, rs.take(c2), cs, row));
                        assert(lands(w, rs, row, c4 + 1, cs as int));
                    },
                }
            }
        },
    }
}

/// Where row `i` of a migration starts reading replies.
pub open spec fn row_start(st: SkillStoreV, rs: Seq<StoreReplyV>, c: nat, rows: Seq<LegacyRowV>, i: int) -> nat
    decreases i,
{
    if i <= 0 {
        c
    } else {
        match s_migrate_row(st, rs, row_start(st, rs, c, rows, i - 1), rows[i - 1]) {
            Asked::Answered(_, c2) => c2,
            Asked::Waiting(_) => 0,
        }
    }
}

/// One row of a successful run: it succeeds, and the run goes on after it.
proof fn lemma_from_step(st: SkillStoreV, rs: Seq<StoreReplyV>, s0: nat, rows: Seq<LegacyRowV>, i: int, cf: nat)
    requires
        st.storage,
        0 <= i < rows.len(),
        s_migrate_from(st, rs, s0, rows, i) == Asked::Answered(Ok::<(), StoreErrorV>(()), cf),
    ensures
        s_migrate_row(st, rs, s0, rows[i]) matches Asked::Answered(Ok(_), c2) && s_migrate_from(
            st,
            rs,
            c2,
            rows,
            i + 1,
        ) == Asked::Answered(Ok::<(), StoreErrorV>(()), cf) && s0 < c2 <= cf,
{
    lemma_row_cursor_bound(st, rs, s0, rows[i]);
    match s_migrate_row(st, rs, s0, rows[i]) {
        Asked::Answered(Ok(_), c2) => {
            lemma_from_cursor(st, rs, c2, rows, i + 1);
        },
        _ => {},
    }
}

/// Cut after the replies a successful row used, the log takes the run past
/// that row in the same way.
proof fn lemma_from_step_truncate(
    st: SkillStoreV,
    rs: Seq<StoreReplyV>,
    s0: nat,
    rows: Seq<LegacyRowV>,
    i: int,
    c2: nat,
    t: int,
)
    requires
        0 <= i < rows.len(),
        s_migrate_row(st, rs, s0, rows[i]) == Asked::Answered(Ok::<(), StoreErrorV>(()), c2),
        c2 <= t <= rs.len(),
    ensures
        s_migrate_from(st, rs.take(t), s0, rows, i) == s_migrate_from(st, rs.take(t), c2, rows, i + 1),
{
    lemma_row_truncate(st, rs, s0, rows[i], t);
}

/// In a successful run, each row up to `i` succeeds where the one before
/// ended, and with the replies up to any point after row `i` starts, the
/// run has done the rows before it and stands at row `i`.
proof fn lemma_rows_in_turn(st: SkillStoreV, rs: Seq<StoreReplyV>, c: nat, rows: Seq<LegacyRowV>, cf: nat, i: int)
    requires
        st.storage,
        s_migrate_from(st, rs, c, rows, 0) == Asked::Answered(Ok::<(), StoreErrorV>(()), cf),
        0 <= i <= rows.len(),
    ensures
        s_migrate_from(st, rs, row_start(st, rs, c, rows, i), rows, i) == Asked::Answered(
            Ok::<(), StoreErrorV>(()),
            cf,
        ),
        c <= row_start(st, rs, c, rows, i) <= cf,
        forall|t: int|
            row_start(st, rs, c, rows, i) <= t <= rs.len() ==> #[trigger] s_migrate_from(
                st,
                rs.take(t),
                c,
                rows,
                0,
            ) == s_migrate_from(st, rs.take(t), row_start(st, rs, c, rows, i), rows, i),
    decreases i,
{
    if i == 0 {
        lemma_from_cursor(st, rs, c, rows, 0);
    } else {
        lemma_rows_in_turn(st, rs, c, rows, cf, i - 1);
        let s0 = row_start(st, rs, c, rows, i - 1);
        lemma_from_step(st, rs, s0, rows, i - 1, cf);
        let c2 = row_start(st, rs, c, rows, i);
        assert forall|t: int|
            c2 <= t <= rs.len() implies #[trigger] s_migrate_from(st, rs.take(t), c, rows, 0)
            == s_migrate_from(st, rs.take(t), c2, rows, i) by {
            lemma_from_step_truncate(st, rs, s0, rows, i - 1, c2, t);
        }
    }
}

proof fn lemma_from_cursor(st: SkillStoreV, rs: Seq<StoreReplyV>, c: nat, rows: Seq<LegacyRowV>, i: int)
    requires
        st.storage,
    ensures
        s_migrate_from(st, rs, c, rows, i) matches Asked::Answered(_, c2) ==> c <= c2,
    decreases rows.len() - i,
{
    if 0 <= i < rows.len() {
        lemma_row_cursor_bound(st, rs, c, rows[i]);
        match s_migrate_row(st, rs, c, rows[i]) {
            Asked::Answered(Ok(_), c2) => {
                lemma_from_cursor(st, rs, c2, rows, i + 1);
            },
            _ => {},
        }
    }
}

/// A migration's evaluation with the replies up to `t`.
pub open spec fn migration_at(st: SkillStoreV, rs: Seq<StoreReplyV>, c: nat, rows: Seq<LegacyRowV>) -> spec_fn(int) -> Asked<
    Result<(), StoreErrorV>,
> {
    |t: int| s_migrate(st, rs.take(t), c, rows)
}

proof fn lemma_owners_from(rows: Seq<LegacyRowV>, i: int)
    requires
        0 <= i,
        ownerless_from(rows, i) is None,
    ensures
        forall|j: int| i <= j < rows.len() ==> (#[trigger] rows[j]).owner is Some,
    decreases rows.len() - i,
{
    if i < rows.len() {
        lemma_owners_from(rows, i + 1);
    }
}

proof fn lemma_lands_transfer(
    w1: spec_fn(int) -> Asked<Result<(), StoreErrorV>>,
    w2: spec_fn(int) -> Asked<Result<(), StoreErrorV>>,
    rs: Seq<StoreReplyV>,
    row: LegacyRowV,
    t: int,
    lo: int,
    hi: int,
    from: int,
)
    requires
        lands(w1, rs, row, t, lo),
        lo <= t < hi,
        from <= lo,
        forall|k: int| lo <= k < hi ==> #[trigger] w1(k) == w2(k),
    ensures
        lands(w2, rs, row, t, from),
{
    assert(w1(t) == w2(t));
    if lo <= t - 1 {
        assert(w1(t - 1) == w2(t - 1));
    }
    if lo <= t - 3 {
        assert(w1(t - 3) == w2(t - 3));
    }
}

/// While row `i` of a successful run waits for its replies, the whole
/// migration waits for the same request.
proof fn lemma_row_is_the_run(st: SkillStoreV, rs: Seq<StoreReplyV>, c: nat, rows: Seq<LegacyRowV>, cf: nat, i: int)
    requires
        st.storage,
        ownerless_from(rows, 0) is None,
        s_migrate_from(st, rs, c, rows, 0) == Asked::Answered(Ok::<(), StoreErrorV>(()), cf),
        0 <= i < rows.len(),
    ensures
        ({
            let s0 = row_start(st, rs, c, rows, i);
            let c2 = row_start(st, rs, c, rows, i + 1);
            &&& s_migrate_row(st, rs, s0, rows[i]) == Asked::Answered(Ok::<(), StoreErrorV>(()), c2)
            &&& c <= s0
            &&& c2 <= cf
            &&& forall|k: int| s0 <= k < c2 ==> #[trigger] row_at(st, rs, s0, rows[i])(k) == migration_at(st, rs, c, rows)(k)
        }),
{
    lemma_rows_in_turn(st, rs, c, rows, cf, i);
    lemma_rows_in_turn(st, rs, c, rows, cf, i + 1);
    let s0 = row_start(st, rs, c, rows, i);
    let c2 = row_start(st, rs, c, rows, i + 1);
    lemma_from_step(st, rs, s0, rows, i, cf);
    lemma_row_waits(st, rs, s0, rows[i], c2);
    assert forall|k: int| s0 <= k < c2 implies #[trigger] row_at(st, rs, s0, rows[i])(k) == migration_at(st, rs, c, rows)(k) by {
        assert(s_migrate(st, rs.take(k), c, rows) == s_migrate_from(st, rs.take(k), c, rows, 0));
        assert(s_migrate_from(st, rs.take(k), c, rows, 0) == s_migrate_from(st, rs.take(k), s0, rows, i));
        assert(s_migrate_row(st, rs.take(k), s0, rows[i]) is Waiting);
    }
}

/// Row `i` of a successful run is deleted, and the deletion succeeds.
proof fn lemma_row_dropped(st: SkillStoreV, rs: Seq<StoreReplyV>, c: nat, rows: Seq<LegacyRowV>, cf: nat, i: int)
    requires
        st.storage,
        ownerless_from(rows, 0) is None,
        s_migrate_from(st, rs, c, rows, 0) == Asked::Answered(Ok::<(), StoreErrorV>(()), cf),
        0 <= i < rows.len(),
    ensures
        exists|t: int|
            c <= t < cf && #[trigger] migration_at(st, rs, c, rows)(t) == Asked::<
                Result<(), StoreErrorV>,
            >::Waiting(StoreOpV::DeleteLegacy(rows[i].id)) && as_done(rs[t]) is Ok,
{
    lemma_row_is_the_run(st, rs, c, rows, cf, i);
    let s0 = row_start(st, rs, c, rows, i);
    let c2 = row_start(st, rs, c, rows, i + 1);
    lemma_row_outcome(st, rs, s0, rows[i], c2);
    assert(row_at(st, rs, s0, rows[i])(c2 - 1) == migration_at(st, rs, c, rows)(c2 - 1));
}

/// Row `i` of a successful run is put in place.
proof fn lemma_row_landed(st: SkillStoreV, rs: Seq<StoreReplyV>, c: nat, rows: Seq<LegacyRowV>, cf: nat, i: int)
    requires
        st.storage,
        ownerless_from(rows, 0) is None,
        s_migrate_from(st, rs, c, rows, 0) == Asked::Answered(Ok::<(), StoreErrorV>(()), cf),
        0 <= i < rows.len(),
    ensures
        exists|t: int| c <= t < cf && #[trigger] lands(migration_at(st, rs, c, rows), rs, rows[i], t, c as int),
{
    lemma_row_is_the_run(st, rs, c, rows, cf, i);
    let s0 = row_start(st, rs, c, rows, i);
    let c2 = row_start(st, rs, c, rows, i + 1);
    lemma_row_outcome(st, rs, s0, rows[i], c2);
    let t = choose|t: int| s0 + 1 <= t < c2 - 1 && #[trigger] lands(row_at(st, rs, s0, rows[i]), rs, rows[i], t, s0 as int);
    lemma_lands_transfer(
        row_at(st, rs, s0, rows[i]),
        migration_at(st, rs, c, rows),
        rs,
        rows[i],
        t,
        s0 as int,
        c2 as int,
        c as int,
    );
}

/// What a complete migration does, for a store with user storage, to each
/// legacy row `i`. The run succeeds only when every row has an owner. The
/// row is put in place: as a new bundle holding the row's rendered text, as
/// a backup under `skill-migration-conflicts/`, or because its bundle
/// already holds exactly that text. After that the row is deleted from the
/// legacy table, and the deletion succeeds, so no legacy row remains. Each
/// such request is what the migration waits for with the replies before it.
pub proof fn lemma_migration_outcome(
    st: SkillStoreV,
    rs: Seq<StoreReplyV>,
    c: nat,
    rows: Seq<LegacyRowV>,
    cf: nat,
    i: int,
)
    requires
        st.storage,
        s_migrate(st, rs, c, rows) == Asked::Answered(Ok::<(), StoreErrorV>(()), cf),
        0 <= i < rows.len(),
    ensures
        rows[i].owner is Some,
        exists|t: int|
            c <= t < cf && #[trigger] migration_at(st, rs, c, rows)(t) == Asked::<
                Result<(), StoreErrorV>,
            >::Waiting(StoreOpV::DeleteLegacy(rows[i].id)) && as_done(rs[t]) is Ok,
        exists|t: int| c <= t < cf && #[trigger] lands(migration_at(st, rs, c, rows), rs, rows[i], t, c as int),
{
    assert(ownerless_from(rows, 0) is None);
    lemma_owners_from(rows, 0);
    assert(s_migrate_from(st, rs, c, rows, 0) == Asked::Answered(Ok::<(), StoreErrorV>(()), cf));
    lemma_row_dropped(st, rs, c, rows, cf, i);
    lemma_row_landed(st, rs, c, rows, cf, i);
}

} // verus!
