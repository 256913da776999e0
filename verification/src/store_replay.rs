//! Why a skill-store operation can be evaluated again and again against a
//! growing log of replies: an evaluation that was answered with some
//! replies is answered in the same way with any longer log that starts with
//! them.
use vstd::prelude::*;

use crate::skill_store::{
    ask, s_add_user_from, s_available, s_create, s_delete, s_ensure_root, s_load, s_load_user,
    s_migrate, s_migrate_from, s_migrate_row, s_read_manifest, s_update, s_user_views,
    s_views_from, Asked, LegacyRowV, SkillStoreV, StoreOpV, StoreReplyV,
};
use crate::skills::UserSkillViewV;

verus! {

/// `ext` starts with `rs`.
pub open spec fn starts_with(ext: Seq<StoreReplyV>, rs: Seq<StoreReplyV>) -> bool {
    rs.len() <= ext.len() && forall|i: int| 0 <= i < rs.len() ==> ext[i] == rs[i]
}

pub broadcast proof fn lemma_ask_stable(rs: Seq<StoreReplyV>, ext: Seq<StoreReplyV>, c: nat, op: StoreOpV)
    requires
        starts_with(ext, rs),
        ask(rs, c, op) is Answered,
    ensures
        #![trigger ask(rs, c, op), ask(ext, c, op)]
        ask(ext, c, op) == ask(rs, c, op),
{
}

pub broadcast proof fn lemma_load_user_stable(
    st: SkillStoreV,
    rs: Seq<StoreReplyV>,
    ext: Seq<StoreReplyV>,
    c: nat,
    owner: u128,
    name: Seq<char>,
)
    requires
        starts_with(ext, rs),
        s_load_user(st, rs, c, owner, name) is Answered,
    ensures
        #![trigger s_load_user(st, rs, c, owner, name), s_load_user(st, ext, c, owner, name)]
        s_load_user(st, ext, c, owner, name) == s_load_user(st, rs, c, owner, name),
{
    broadcast use lemma_ask_stable;

    assert(s_ensure_root(st, rs, c, owner) is Answered);
    match s_ensure_root(st, rs, c, owner) {
        Asked::Answered(Ok(_), c2) => {
            assert(s_read_manifest(st, ext, c2, owner, name) == s_read_manifest(st, rs, c2, owner, name));
        },
        _ => {},
    }
}

proof fn lemma_views_stable(
    st: SkillStoreV,
    rs: Seq<StoreReplyV>,
    ext: Seq<StoreReplyV>,
    c: nat,
    owner: u128,
    es: Seq<(Seq<char>, bool)>,
    i: int,
    acc: Seq<UserSkillViewV>,
)
    requires
        starts_with(ext, rs),
        s_views_from(st, rs, c, owner, es, i, acc) is Answered,
    ensures
        s_views_from(st, ext, c, owner, es, i, acc) == s_views_from(st, rs, c, owner, es, i, acc),
    decreases es.len() - i,
{
    broadcast use lemma_load_user_stable;

    if 0 <= i < es.len() {
        if !es[i].1 {
            lemma_views_stable(st, rs, ext, c, owner, es, i + 1, acc);
        } else {
            match s_load_user(st, rs, c, owner, es[i].0) {
                Asked::Answered(l, c2) => {
                    match crate::skill_store::classify(st, es[i].0, l) {
                        Ok(v) => {
                            lemma_views_stable(st, rs, ext, c2, owner, es, i + 1, acc.push(v));
                        },
                        _ => {},
                    }
                },
                _ => {},
            }
        }
    }
}

proof fn lemma_user_views_stable(st: SkillStoreV, rs: Seq<StoreReplyV>, ext: Seq<StoreReplyV>, c: nat, owner: u128)
    requires
        starts_with(ext, rs),
        s_user_views(st, rs, c, owner) is Answered,
    ensures
        s_user_views(st, ext, c, owner) == s_user_views(st, rs, c, owner),
{
    broadcast use lemma_ask_stable;

    match s_ensure_root(st, rs, c, owner) {
        Asked::Answered(Ok(_), c2) => {
            match ask(rs, c2, StoreOpV::List(owner, crate::skills::USER_SKILLS_ROOT@)) {
                Asked::Answered(r, c3) => {
                    match crate::skill_store::as_entries(r) {
                        Ok(es) => {
                            lemma_views_stable(st, rs, ext, c3, owner, es, 0, Seq::empty());
                        },
                        _ => {},
                    }
                },
                _ => {},
            }
        },
        _ => {},
    }
}

proof fn lemma_add_user_stable(
    st: SkillStoreV,
    rs: Seq<StoreReplyV>,
    ext: Seq<StoreReplyV>,
    c: nat,
    owner: u128,
    vs: Seq<UserSkillViewV>,
    i: int,
    acc: Seq<crate::skills::SkillV>,
)
    requires
        starts_with(ext, rs),
        s_add_user_from(st, rs, c, owner, vs, i, acc) is Answered,
    ensures
        s_add_user_from(st, ext, c, owner, vs, i, acc) == s_add_user_from(st, rs, c, owner, vs, i, acc),
    decreases vs.len() - i,
{
    broadcast use lemma_load_user_stable;

    if 0 <= i < vs.len() {
        if vs[i].valid && crate::skill_store::system_index(st.system, vs[i].name) is None {
            match s_load_user(st, rs, c, owner, vs[i].name) {
                Asked::Answered(Ok(sk), c2) => {
                    lemma_add_user_stable(st, rs, ext, c2, owner, vs, i + 1, acc.push(sk));
                },
                _ => {},
            }
        } else {
            lemma_add_user_stable(st, rs, ext, c, owner, vs, i + 1, acc);
        }
    }
}

proof fn lemma_migrate_from_stable(
    st: SkillStoreV,
    rs: Seq<StoreReplyV>,
    ext: Seq<StoreReplyV>,
    c: nat,
    rows: Seq<LegacyRowV>,
    i: int,
)
    requires
        starts_with(ext, rs),
        s_migrate_from(st, rs, c, rows, i) is Answered,
    ensures
        s_migrate_from(st, ext, c, rows, i) == s_migrate_from(st, rs, c, rows, i),
    decreases rows.len() - i,
{
    broadcast use lemma_ask_stable;

    if 0 <= i < rows.len() {
        assert(s_migrate_row(st, ext, c, rows[i]) == s_migrate_row(st, rs, c, rows[i]));
        match s_migrate_row(st, rs, c, rows[i]) {
            Asked::Answered(Ok(_), c2) => {
                lemma_migrate_from_stable(st, rs, ext, c2, rows, i + 1);
            },
            _ => {},
        }
    }
}

/// Replies that an evaluation did not use change nothing: each operation of
/// the store that was answered with the replies `rs` is answered in the
/// same way, with the same value and the same number of replies used, with
/// any longer log that starts with `rs`. So a driver that answers the
/// request an operation makes and evaluates it again retraces every step
/// already taken.
pub proof fn lemma_store_ignores_unused_replies(
    st: SkillStoreV,
    rs: Seq<StoreReplyV>,
    ext: Seq<StoreReplyV>,
    c: nat,
    owner: u128,
    name: Seq<char>,
    description: Seq<char>,
    content: Seq<char>,
    excluded: Seq<Seq<char>>,
    rows: Seq<LegacyRowV>,
)
    requires
        rs.is_prefix_of(ext),
    ensures
        s_load(st, rs, c, owner, name, excluded) is Answered ==> s_load(st, ext, c, owner, name, excluded)
            == s_load(st, rs, c, owner, name, excluded),
        s_create(st, rs, c, owner, name, description, content) is Answered ==> s_create(
            st,
            ext,
            c,
            owner,
            name,
            description,
            content,
        ) == s_create(st, rs, c, owner, name, description, content),
        s_update(st, rs, c, owner, name, description, content) is Answered ==> s_update(
            st,
            ext,
            c,
            owner,
            name,
            description,
            content,
        ) == s_update(st, rs, c, owner, name, description, content),
        s_delete(st, rs, c, owner, name) is Answered ==> s_delete(st, ext, c, owner, name) == s_delete(
            st,
            rs,
            c,
            owner,
            name,
        ),
        s_user_views(st, rs, c, owner) is Answered ==> s_user_views(st, ext, c, owner)
            == s_user_views(st, rs, c, owner),
        s_available(st, rs, c, owner, excluded) is Answered ==> s_available(st, ext, c, owner, excluded)
            == s_available(st, rs, c, owner, excluded),
        s_migrate(st, rs, c, rows) is Answered ==> s_migrate(st, ext, c, rows) == s_migrate(
            st,
            rs,
            c,
            rows,
        ),
{
    broadcast use lemma_ask_stable, lemma_load_user_stable;

    assert(starts_with(ext, rs)) by {
        assert forall|i: int| 0 <= i < rs.len() implies ext[i] == rs[i] by {
            assert(rs[i] == ext.subrange(0, rs.len() as int)[i]);
        }
    }
    if s_user_views(st, rs, c, owner) is Answered {
        lemma_user_views_stable(st, rs, ext, c, owner);
    }
    if s_available(st, rs, c, owner, excluded) is Answered && st.storage {
        lemma_user_views_stable(st, rs, ext, c, owner);
        match s_user_views(st, rs, c, owner) {
            Asked::Answered(Ok(vs), c2) => {
                lemma_add_user_stable(
                    st,
                    rs,
                    ext,
                    c2,
                    owner,
                    vs,
                    0,
                    crate::skill_store::without_excluded(st.system, excluded),
                );
            },
            _ => {},
        }
    }
    if s_migrate(st, rs, c, rows) is Answered && st.storage && crate::skill_store::ownerless_from(
        rows,
        0,
    ) is None {
        lemma_migrate_from_stable(st, rs, ext, c, rows, 0);
    }
}

} // verus!
